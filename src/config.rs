use vstd::prelude::*;

verus! {

/// The type of a metadata column.
#[derive(Clone, Copy, Debug, PartialEq, Eq, Structural)]
pub enum DataType {
    String,
    Integer,
    Date,
}

/// A metadata column of the schema.
#[derive(Debug)]
pub struct SchemaConfigMetadata {
    pub name: String,
    pub data_type: DataType,
}

/// The dataset's schema: its name, its metadata columns and the column that
/// identifies a sequence.
#[derive(Debug)]
pub struct SchemaConfig {
    pub instance_name: String,
    pub additional_metadata: Vec<SchemaConfigMetadata>,
    pub primary_key: String,
}

/// How to reach the database that stores the dataset.
#[derive(Debug)]
pub struct DatabaseConfig {
    pub host: String,
    pub port: u16,
    pub dbname: String,
    pub username: String,
    pub password: String,
    pub schema: String,
}

/// The program's settings.
#[derive(Debug)]
pub struct ProgramConfig {
    pub database: DatabaseConfig,
    pub schema: SchemaConfig,
}

/// The reference genome.
#[derive(Debug)]
pub struct RefGenomeConfig {
    pub sequence: String,
}

/// The columns that every dataset has besides those of the schema: the
/// sampling date, and its year, month and day.
pub fn all_columns(schema: &SchemaConfig) -> (r: Vec<SchemaConfigMetadata>)
    ensures
        r@.len() == schema.additional_metadata@.len() + 4,
        forall|i: int| 0 <= i < schema.additional_metadata@.len() ==> (#[trigger] r@[i]).name@ == schema.additional_metadata@[i].name@
            && r@[i].data_type == schema.additional_metadata@[i].data_type,
        r@[schema.additional_metadata@.len() as int].name@ == "date"@,
        r@[schema.additional_metadata@.len() as int].data_type == DataType::Date,
        r@[schema.additional_metadata@.len() as int + 1].name@ == "year"@,
        r@[schema.additional_metadata@.len() as int + 1].data_type == DataType::Integer,
        r@[schema.additional_metadata@.len() as int + 2].name@ == "month"@,
        r@[schema.additional_metadata@.len() as int + 2].data_type == DataType::Integer,
        r@[schema.additional_metadata@.len() as int + 3].name@ == "day"@,
        r@[schema.additional_metadata@.len() as int + 3].data_type == DataType::Integer,
{
    let mut r: Vec<SchemaConfigMetadata> = Vec::new();
    let mut i: usize = 0;
    while i < schema.additional_metadata.len()
        invariant
            i <= schema.additional_metadata@.len(),
            r@.len() == i,
            forall|k: int| 0 <= k < i ==> (#[trigger] r@[k]).name@ == schema.additional_metadata@[k].name@
                && r@[k].data_type == schema.additional_metadata@[k].data_type,
        decreases schema.additional_metadata@.len() - i,
    {
        let c = &schema.additional_metadata[i];
        r.push(SchemaConfigMetadata { name: c.name.clone(), data_type: c.data_type });
        i = i + 1;
    }
    r.push(SchemaConfigMetadata { name: "date".to_owned(), data_type: DataType::Date });
    r.push(SchemaConfigMetadata { name: "year".to_owned(), data_type: DataType::Integer });
    r.push(SchemaConfigMetadata { name: "month".to_owned(), data_type: DataType::Integer });
    r.push(SchemaConfigMetadata { name: "day".to_owned(), data_type: DataType::Integer });
    r
}

/// A metadata cell as read from an input file: empty, `?` and `NA` mean that
/// the value is missing.
pub fn handle_null(s: &str) -> (r: Option<String>)
    ensures
        r is None <==> (s@ == ""@ || s@ == "?"@ || s@ == "NA"@),
        r matches Some(t) ==> t@ == s@,
{
    let t = s.to_owned();
    let empty = "".to_owned();
    let unknown = "?".to_owned();
    let na = "NA".to_owned();
    if t == empty || t == unknown || t == na {
        None
    } else {
        Some(t)
    }
}

} // verus!
