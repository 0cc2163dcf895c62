use crate::config::{DataType, SchemaConfigMetadata};
use crate::nuc_code::NucCode;
use vstd::prelude::*;

verus! {

/// One metadata column: a nullable string or a nullable integer per sequence.
/// Dates are stored as integers, in days since 1970-01-01.
pub enum Column {
    Str(Vec<Option<String>>),
    Int(Vec<Option<i32>>),
}

impl Column {
    pub open spec fn spec_len(&self) -> nat {
        match self {
            Column::Str(v) => v@.len(),
            Column::Int(v) => v@.len(),
        }
    }
}

/// What a query reads: the named metadata columns and the symbol columns of
/// the genome positions that the query names, each with one value per
/// sequence, and the declared type of each metadata column.
pub struct Database {
    pub number_entries: usize,
    pub metadata: Vec<(String, Column)>,
    pub nuc_columns: Vec<(u32, Vec<NucCode>)>,
    pub column_schema: Vec<SchemaConfigMetadata>,
}

/// The declared type of the first schema entry named `name`.
pub open spec fn find_type(schema: Seq<SchemaConfigMetadata>, name: Seq<char>) -> Option<DataType>
    decreases schema.len(),
{
    if schema.len() == 0 {
        None
    } else if schema[0].name@ == name {
        Some(schema[0].data_type)
    } else {
        find_type(schema.drop_first(), name)
    }
}

/// The declared types of the fields, where the schema declares all of them.
pub open spec fn types_for(schema: Seq<SchemaConfigMetadata>, fields: Seq<String>) -> Option<Seq<DataType>>
    decreases fields.len(),
{
    if fields.len() == 0 {
        Some(Seq::empty())
    } else {
        match (types_for(schema, fields.drop_last()), find_type(schema, fields.last()@)) {
            (Some(ts), Some(t)) => Some(ts.push(t)),
            _ => None,
        }
    }
}

proof fn lemma_types_for_prefix_none(schema: Seq<SchemaConfigMetadata>, fields: Seq<String>, n: int)
    requires
        0 <= n <= fields.len(),
        types_for(schema, fields.subrange(0, n)) is None,
    ensures
        types_for(schema, fields) is None,
    decreases fields.len(),
{
    if n < fields.len() {
        assert(fields.drop_last().subrange(0, n) == fields.subrange(0, n));
        lemma_types_for_prefix_none(schema, fields.drop_last(), n);
    } else {
        assert(fields.subrange(0, n) == fields);
    }
}

/// The first column named `name`.
pub open spec fn find_column(cols: Seq<(String, Column)>, name: Seq<char>) -> Option<Column>
    decreases cols.len(),
{
    if cols.len() == 0 {
        None
    } else if cols[0].0@ == name {
        Some(cols[0].1)
    } else {
        find_column(cols.drop_first(), name)
    }
}

/// The first symbol column of the genome position `position`.
pub open spec fn find_nuc_column(cols: Seq<(u32, Vec<NucCode>)>, position: u32) -> Option<Seq<NucCode>>
    decreases cols.len(),
{
    if cols.len() == 0 {
        None
    } else if cols[0].0 == position {
        Some(cols[0].1@)
    } else {
        find_nuc_column(cols.drop_first(), position)
    }
}

impl Database {
    /// Every column holds one value per sequence.
    pub open spec fn wf(&self) -> bool {
        &&& forall|i: int| 0 <= i < self.metadata@.len() ==> (#[trigger] self.metadata@[i]).1.spec_len() == self.number_entries
        &&& forall|i: int| 0 <= i < self.nuc_columns@.len() ==> (#[trigger] self.nuc_columns@[i]).1@.len() == self.number_entries
    }

    /// The metadata column named `name`, if there is one.
    pub fn column(&self, name: &String) -> (r: Option<&Column>)
        ensures
            r matches Some(c) ==> find_column(self.metadata@, name@) == Some(*c),
            r is None ==> find_column(self.metadata@, name@) is None,
    {
        let mut i: usize = 0;
        proof {
            assert(self.metadata@.subrange(0, self.metadata@.len() as int) == self.metadata@);
        }
        while i < self.metadata.len()
            invariant
                i <= self.metadata@.len(),
                find_column(self.metadata@, name@) == find_column(self.metadata@.subrange(i as int, self.metadata@.len() as int), name@),
            decreases self.metadata@.len() - i,
        {
            let ghost rest = self.metadata@.subrange(i as int, self.metadata@.len() as int);
            proof {
                assert(rest[0] == self.metadata@[i as int]);
                assert(rest.drop_first() == self.metadata@.subrange(i + 1, self.metadata@.len() as int));
            }
            if self.metadata[i].0 == *name {
                return Some(&self.metadata[i].1);
            }
            i = i + 1;
        }
        None
    }

    /// The index of the first metadata column named `name`, if there is one.
    pub fn column_index(&self, name: &String) -> (r: Option<usize>)
        ensures
            r matches Some(i) ==> i < self.metadata@.len() && find_column(self.metadata@, name@) == Some(self.metadata@[i as int].1),
            r is None ==> find_column(self.metadata@, name@) is None,
    {
        let mut i: usize = 0;
        proof {
            assert(self.metadata@.subrange(0, self.metadata@.len() as int) == self.metadata@);
        }
        while i < self.metadata.len()
            invariant
                i <= self.metadata@.len(),
                find_column(self.metadata@, name@) == find_column(self.metadata@.subrange(i as int, self.metadata@.len() as int), name@),
            decreases self.metadata@.len() - i,
        {
            let ghost rest = self.metadata@.subrange(i as int, self.metadata@.len() as int);
            proof {
                assert(rest[0] == self.metadata@[i as int]);
                assert(rest.drop_first() == self.metadata@.subrange(i + 1, self.metadata@.len() as int));
            }
            if self.metadata[i].0 == *name {
                return Some(i);
            }
            i = i + 1;
        }
        None
    }

    /// The declared type of the column named `name`, if the schema has it.
    pub fn column_type(&self, name: &String) -> (r: Option<DataType>)
        ensures
            r == find_type(self.column_schema@, name@),
    {
        let mut i: usize = 0;
        proof {
            assert(self.column_schema@.subrange(0, self.column_schema@.len() as int) == self.column_schema@);
        }
        while i < self.column_schema.len()
            invariant
                i <= self.column_schema@.len(),
                find_type(self.column_schema@, name@) == find_type(self.column_schema@.subrange(i as int, self.column_schema@.len() as int), name@),
            decreases self.column_schema@.len() - i,
        {
            let ghost rest = self.column_schema@.subrange(i as int, self.column_schema@.len() as int);
            proof {
                assert(rest[0] == self.column_schema@[i as int]);
                assert(rest.drop_first() == self.column_schema@.subrange(i + 1, self.column_schema@.len() as int));
            }
            if self.column_schema[i].name == *name {
                return Some(self.column_schema[i].data_type);
            }
            i = i + 1;
        }
        None
    }

    /// The declared types of the fields, where the schema declares all of them.
    pub fn column_types(&self, fields: &Vec<String>) -> (r: Option<Vec<DataType>>)
        ensures
            match types_for(self.column_schema@, fields@) {
                Some(ts) => r matches Some(v) && v@ == ts,
                None => r is None,
            },
    {
        let mut types: Vec<DataType> = Vec::new();
        let mut f: usize = 0;
        while f < fields.len()
            invariant
                f <= fields@.len(),
                types_for(self.column_schema@, fields@.subrange(0, f as int)) == Some(types@),
            decreases fields@.len() - f,
        {
            proof {
                assert(fields@.subrange(0, f + 1).drop_last() == fields@.subrange(0, f as int));
                assert(fields@.subrange(0, f + 1).last() == fields@[f as int]);
            }
            match self.column_type(&fields[f]) {
                Some(t) => types.push(t),
                None => {
                    proof {
                        lemma_types_for_prefix_none(self.column_schema@, fields@, f as int + 1);
                    }
                    return None;
                },
            }
            f = f + 1;
        }
        proof {
            assert(fields@.subrange(0, f as int) == fields@);
        }
        Some(types)
    }

    /// The symbol column of the genome position `position`, if it was loaded.
    pub fn nuc_column(&self, position: u32) -> (r: Option<&Vec<NucCode>>)
        ensures
            r matches Some(c) ==> find_nuc_column(self.nuc_columns@, position) == Some(c@),
            r is None ==> find_nuc_column(self.nuc_columns@, position) is None,
    {
        let mut i: usize = 0;
        proof {
            assert(self.nuc_columns@.subrange(0, self.nuc_columns@.len() as int) == self.nuc_columns@);
        }
        while i < self.nuc_columns.len()
            invariant
                i <= self.nuc_columns@.len(),
                find_nuc_column(self.nuc_columns@, position)
                    == find_nuc_column(self.nuc_columns@.subrange(i as int, self.nuc_columns@.len() as int), position),
            decreases self.nuc_columns@.len() - i,
        {
            let ghost rest = self.nuc_columns@.subrange(i as int, self.nuc_columns@.len() as int);
            proof {
                assert(rest[0] == self.nuc_columns@[i as int]);
                assert(rest.drop_first() == self.nuc_columns@.subrange(i + 1, self.nuc_columns@.len() as int));
            }
            if self.nuc_columns[i].0 == position {
                return Some(&self.nuc_columns[i].1);
            }
            i = i + 1;
        }
        None
    }
}

/// A column found by name is one of the database's columns.
pub proof fn lemma_find_column_in(cols: Seq<(String, Column)>, name: Seq<char>)
    ensures
        find_column(cols, name) matches Some(c) ==> exists|i: int| 0 <= i < cols.len() && (#[trigger] cols[i]).1 == c,
    decreases cols.len(),
{
    if cols.len() > 0 && cols[0].0@ != name {
        lemma_find_column_in(cols.drop_first(), name);
        if find_column(cols, name) is Some {
            let c = find_column(cols, name)->0;
            let i = choose|i: int| 0 <= i < cols.drop_first().len() && (#[trigger] cols.drop_first()[i]).1 == c;
            assert(cols[i + 1] == cols.drop_first()[i]);
        }
    } else if cols.len() > 0 {
        assert(cols[0].1 == find_column(cols, name)->0);
    }
}

/// A symbol column found by position is one of the database's symbol columns.
pub proof fn lemma_find_nuc_column_in(cols: Seq<(u32, Vec<NucCode>)>, position: u32)
    ensures
        find_nuc_column(cols, position) matches Some(c) ==> exists|i: int| 0 <= i < cols.len() && (#[trigger] cols[i]).1@ == c,
    decreases cols.len(),
{
    if cols.len() > 0 && cols[0].0 != position {
        lemma_find_nuc_column_in(cols.drop_first(), position);
        if find_nuc_column(cols, position) is Some {
            let c = find_nuc_column(cols, position)->0;
            let i = choose|i: int| 0 <= i < cols.drop_first().len() && (#[trigger] cols.drop_first()[i]).1@ == c;
            assert(cols[i + 1] == cols.drop_first()[i]);
        }
    } else if cols.len() > 0 {
        assert(cols[0].1@ == find_nuc_column(cols, position)->0);
    }
}

} // verus!
