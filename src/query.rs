use crate::database::{find_column, Column, Database, lemma_find_column_in};
use crate::filters::EvalError;
use crate::filter_parse::member;
use crate::json::{get_field, Json, JsonNumber};
use crate::config::DataType;
use vstd::prelude::*;

verus! {

/// The values of a row in the grouped columns: the string columns' values and
/// the integer columns' values, each list in the order of the fields.
pub struct AggregationKey {
    pub strs: Vec<Option<String>>,
    pub ints: Vec<Option<i32>>,
}

/// A key's contents.
pub open spec fn key_view(k: AggregationKey) -> (Seq<Option<Seq<char>>>, Seq<Option<i32>>) {
    (k.strs@.map_values(|s: Option<String>| match s {
        Some(t) => Some(t@),
        None => None,
    }), k.ints@)
}

impl AggregationKey {
    pub fn new() -> (r: Self)
        ensures
            r.strs@.len() == 0,
            r.ints@.len() == 0,
    {
        AggregationKey { strs: Vec::new(), ints: Vec::new() }
    }

    pub fn put_str(&mut self, s: Option<String>)
        ensures
            final(self).strs@ == old(self).strs@.push(s),
            final(self).ints@ == old(self).ints@,
    {
        self.strs.push(s);
    }

    pub fn put_int(&mut self, i: Option<i32>)
        ensures
            final(self).ints@ == old(self).ints@.push(i),
            final(self).strs@ == old(self).strs@,
    {
        self.ints.push(i);
    }

    /// Whether two keys hold the same values.
    pub fn same_values(&self, other: &AggregationKey) -> (r: bool)
        ensures
            r == (key_view(*self) == key_view(*other)),
    {
        if self.strs.len() != other.strs.len() || self.ints.len() != other.ints.len() {
            proof {
                if key_view(*self) == key_view(*other) {
                    assert(key_view(*self).0.len() == self.strs@.len());
                }
            }
            return false;
        }
        let ghost a = key_view(*self);
        let ghost b = key_view(*other);
        let mut i: usize = 0;
        while i < self.strs.len()
            invariant
                a == key_view(*self),
                b == key_view(*other),
                self.strs@.len() == other.strs@.len(),
                i <= self.strs@.len(),
                forall|j: int| 0 <= j < i ==> a.0[j] == b.0[j],
            decreases self.strs@.len() - i,
        {
            let same = match (&self.strs[i], &other.strs[i]) {
                (Some(x), Some(y)) => *x == *y,
                (None, None) => true,
                _ => false,
            };
            if !same {
                proof {
                    assert(a.0[i as int] != b.0[i as int]);
                }
                return false;
            }
            i = i + 1;
        }
        let mut i: usize = 0;
        while i < self.ints.len()
            invariant
                self.ints@.len() == other.ints@.len(),
                i <= self.ints@.len(),
                forall|j: int| 0 <= j < i ==> self.ints@[j] == other.ints@[j],
            decreases self.ints@.len() - i,
        {
            if self.ints[i] != other.ints[i] {
                return false;
            }
            i = i + 1;
        }
        proof {
            assert(a.0 =~= b.0);
            assert(self.ints@ =~= other.ints@);
        }
        true
    }
}

/// The key of row `i` over the given columns: the string columns' values in
/// order, and the integer columns' values in order.
pub open spec fn row_key(cols: Seq<Column>, i: int) -> (Seq<Option<Seq<char>>>, Seq<Option<i32>>)
    decreases cols.len(),
{
    if cols.len() == 0 {
        (Seq::empty(), Seq::empty())
    } else {
        let (s, n) = row_key(cols.drop_last(), i);
        match cols.last() {
            Column::Str(v) => (s.push(match v@[i] {
                Some(t) => Some(t@),
                None => None,
            }), n),
            Column::Int(v) => (s, n.push(v@[i])),
        }
    }
}

/// How many of the first `n` rows are selected and have the key `key`.
pub open spec fn rows_with_key(
    filtered: Seq<bool>,
    cols: Seq<Column>,
    key: (Seq<Option<Seq<char>>>, Seq<Option<i32>>),
    n: int,
) -> nat
    decreases n,
{
    if n <= 0 {
        0
    } else {
        rows_with_key(filtered, cols, key, n - 1) + if filtered[n - 1] && row_key(cols, n - 1) == key { 1nat } else { 0nat }
    }
}

/// How many of the first `n` rows are selected.
pub open spec fn selected_count(filtered: Seq<bool>, n: int) -> nat
    decreases n,
{
    if n <= 0 {
        0
    } else {
        selected_count(filtered, n - 1) + if filtered[n - 1] { 1nat } else { 0nat }
    }
}

/// The columns that the fields name, where the database has all of them.
pub open spec fn columns_for(cols: Seq<(String, Column)>, fields: Seq<String>) -> Option<Seq<Column>>
    decreases fields.len(),
{
    if fields.len() == 0 {
        Some(Seq::empty())
    } else {
        match (columns_for(cols, fields.drop_last()), find_column(cols, fields.last()@)) {
            (Some(cs), Some(c)) => Some(cs.push(c)),
            _ => None,
        }
    }
}

/// Groups the selected sequences by the values of the named columns.
pub struct AggregatedQuery {
    pub fields: Vec<String>,
}

/// The groups, each with its key and its number of sequences.
pub struct AggregatedQueryResult {
    pub fields: Vec<String>,
    pub counts: Vec<(AggregationKey, u32)>,
}

fn selected(filtered: &Vec<bool>) -> (r: u32)
    requires
        filtered@.len() <= u32::MAX,
    ensures
        r == selected_count(filtered@, filtered@.len() as int),
{
    let mut count: u32 = 0;
    let mut i: usize = 0;
    while i < filtered.len()
        invariant
            i <= filtered@.len() <= u32::MAX,
            count == selected_count(filtered@, i as int),
            count <= i,
        decreases filtered@.len() - i,
    {
        if filtered[i] {
            count = count + 1;
        }
        i = i + 1;
    }
    count
}

/// The columns at the given indices of the metadata.
pub open spec fn columns_at(db: Database, idxs: Seq<usize>) -> Seq<Column> {
    idxs.map_values(|i: usize| db.metadata@[i as int].1)
}

/// Finds the metadata column of every field.
fn resolve_columns(database: &Database, fields: &Vec<String>) -> (r: Option<Vec<usize>>)
    ensures
        r matches Some(v) ==> columns_for(database.metadata@, fields@) == Some(columns_at(*database, v@))
            && forall|k: int| 0 <= k < v@.len() ==> (#[trigger] v@[k]) < database.metadata@.len(),
        r is None ==> columns_for(database.metadata@, fields@) is None,
{
    let mut idxs: Vec<usize> = Vec::new();
    let mut f: usize = 0;
    while f < fields.len()
        invariant
            f <= fields@.len(),
            columns_for(database.metadata@, fields@.subrange(0, f as int)) == Some(columns_at(*database, idxs@)),
            forall|k: int| 0 <= k < idxs@.len() ==> (#[trigger] idxs@[k]) < database.metadata@.len(),
        decreases fields@.len() - f,
    {
        proof {
            assert(fields@.subrange(0, f + 1).drop_last() == fields@.subrange(0, f as int));
            assert(fields@.subrange(0, f + 1).last() == fields@[f as int]);
        }
        match database.column_index(&fields[f]) {
            Some(i) => {
                let ghost before = idxs@;
                idxs.push(i);
                proof {
                    assert(columns_at(*database, idxs@) =~= columns_at(*database, before).push(database.metadata@[i as int].1));
                }
            },
            None => {
                proof {
                    lemma_columns_for_prefix_none(database.metadata@, fields@, f as int + 1);
                }
                return None;
            },
        }
        f = f + 1;
    }
    proof {
        assert(fields@.subrange(0, f as int) == fields@);
    }
    Some(idxs)
}

proof fn lemma_columns_for_prefix_none(cols: Seq<(String, Column)>, fields: Seq<String>, n: int)
    requires
        0 <= n <= fields.len(),
        columns_for(cols, fields.subrange(0, n)) is None,
    ensures
        columns_for(cols, fields) is None,
    decreases fields.len(),
{
    if n < fields.len() {
        assert(fields.drop_last().subrange(0, n) == fields.subrange(0, n));
        lemma_columns_for_prefix_none(cols, fields.drop_last(), n);
    } else {
        assert(fields.subrange(0, n) == fields);
    }
}

/// The key of row `i` over the columns at `idxs`.
fn key_of_row(database: &Database, idxs: &Vec<usize>, i: usize) -> (r: AggregationKey)
    requires
        database.wf(),
        i < database.number_entries,
        forall|k: int| 0 <= k < idxs@.len() ==> (#[trigger] idxs@[k]) < database.metadata@.len(),
    ensures
        key_view(r) == row_key(columns_at(*database, idxs@), i as int),
{
    let mut key = AggregationKey::new();
    let mut f: usize = 0;
    proof {
        assert(key_view(key).0 =~= Seq::<Option<Seq<char>>>::empty());
        assert(columns_at(*database, idxs@).subrange(0, 0) =~= Seq::<Column>::empty());
    }
    while f < idxs.len()
        invariant
            database.wf(),
            i < database.number_entries,
            f <= idxs@.len(),
            forall|k: int| 0 <= k < idxs@.len() ==> (#[trigger] idxs@[k]) < database.metadata@.len(),
            key_view(key) == row_key(columns_at(*database, idxs@).subrange(0, f as int), i as int),
        decreases idxs@.len() - f,
    {
        let ghost cols = columns_at(*database, idxs@);
        proof {
            assert(cols.subrange(0, f + 1).drop_last() == cols.subrange(0, f as int));
            assert(cols.subrange(0, f + 1).last() == cols[f as int]);
            assert(cols[f as int] == database.metadata@[idxs@[f as int] as int].1);
            assert(database.metadata@[idxs@[f as int] as int].1.spec_len() == database.number_entries);
        }
        let ghost before = key_view(key);
        match &database.metadata[idxs[f]].1 {
            Column::Str(v) => {
                let value = match &v[i] {
                    Some(s) => Some(s.clone()),
                    None => None,
                };
                key.put_str(value);
                proof {
                    assert(key_view(key).0 =~= before.0.push(match v@[i as int] {
                        Some(t) => Some(t@),
                        None => None,
                    }));
                }
            },
            Column::Int(v) => {
                key.put_int(v[i]);
            },
        }
        f = f + 1;
    }
    proof {
        assert(columns_at(*database, idxs@).subrange(0, f as int) == columns_at(*database, idxs@));
    }
    key
}

/// A row counted under a key was selected with that key.
proof fn lemma_rows_with_key_witness(filtered: Seq<bool>, cols: Seq<Column>, key: (Seq<Option<Seq<char>>>, Seq<Option<i32>>), n: int)
    requires
        rows_with_key(filtered, cols, key, n) > 0,
    ensures
        exists|r: int| 0 <= r < n && filtered[r] && #[trigger] row_key(cols, r) == key,
    decreases n,
{
    if n > 0 && !(filtered[n - 1] && row_key(cols, n - 1) == key) {
        lemma_rows_with_key_witness(filtered, cols, key, n - 1);
    }
}

/// No more rows have a key than there are rows.
proof fn lemma_rows_with_key_bound(filtered: Seq<bool>, cols: Seq<Column>, key: (Seq<Option<Seq<char>>>, Seq<Option<i32>>), n: int)
    requires
        n >= 0,
    ensures
        rows_with_key(filtered, cols, key, n) <= n,
    decreases n,
{
    if n > 0 {
        lemma_rows_with_key_bound(filtered, cols, key, n - 1);
    }
}

/// Whether one of the groups has the key `key`.
pub open spec fn has_group(counts: Seq<(AggregationKey, u32)>, key: (Seq<Option<Seq<char>>>, Seq<Option<i32>>)) -> bool {
    exists|g: int| 0 <= g < counts.len() && key_view((#[trigger] counts[g]).0) == key
}

/// The contents of each group's key.
pub open spec fn group_keys(keys: Seq<AggregationKey>) -> Seq<(Seq<Option<Seq<char>>>, Seq<Option<i32>>)> {
    keys.map_values(|k: AggregationKey| key_view(k))
}

impl AggregatedQuery {
    /// Counts the selected sequences per combination of values of the fields'
    /// columns, with the groups in the order in which their first sequence
    /// comes. Without fields there is one group, with the empty key and the
    /// number of selected sequences. A field that names no column fails the
    /// query.
    pub fn evaluate(&self, filtered: &Vec<bool>, database: &Database) -> (r: Result<AggregatedQueryResult, EvalError>)
        requires
            database.wf(),
            filtered@.len() == database.number_entries,
            filtered@.len() <= u32::MAX,
        ensures
            r is Err <==> columns_for(database.metadata@, self.fields@) is None,
            r is Err ==> r == Err::<AggregatedQueryResult, EvalError>(EvalError::MissingColumn),
            r matches Ok(res) ==> res.fields@ == self.fields@,
            r matches Ok(res) ==> self.fields@.len() == 0 ==> {
                &&& res.counts@.len() == 1
                &&& key_view(res.counts@[0].0).0.len() == 0
                &&& res.counts@[0].0.ints@.len() == 0
                &&& res.counts@[0].1 == selected_count(filtered@, filtered@.len() as int)
            },
            r matches Ok(res) ==> self.fields@.len() > 0 ==> {
                let cols = columns_for(database.metadata@, self.fields@)->0;
                let n = filtered@.len() as int;
                &&& forall|g: int| 0 <= g < res.counts@.len() ==> (#[trigger] res.counts@[g]).1 > 0
                    && res.counts@[g].1 == rows_with_key(filtered@, cols, key_view(res.counts@[g].0), n)
                &&& forall|g: int, h: int| 0 <= g < res.counts@.len() && 0 <= h < res.counts@.len() && g != h
                    ==> key_view((#[trigger] res.counts@[g]).0) != key_view((#[trigger] res.counts@[h]).0)
                &&& forall|i: int| 0 <= i < n && filtered@[i] ==> #[trigger] has_group(res.counts@, row_key(cols, i))
            },
    {
        let idxs = match resolve_columns(database, &self.fields) {
            Some(v) => v,
            None => return Err(EvalError::MissingColumn),
        };
        let fields = clone_strings(&self.fields);
        let mut counts: Vec<(AggregationKey, u32)> = Vec::new();
        if self.fields.len() == 0 {
            let count = selected(filtered);
            counts.push((AggregationKey::new(), count));
            proof {
                assert(key_view(counts@[0].0).0 =~= Seq::<Option<Seq<char>>>::empty());
            }
            return Ok(AggregatedQueryResult { fields, counts });
        }
        let ghost cols = columns_at(*database, idxs@);
        let n = filtered.len();
        let mut keys: Vec<AggregationKey> = Vec::new();
        let mut nums: Vec<u32> = Vec::new();
        let mut i: usize = 0;
        while i < n
            invariant
                database.wf(),
                n == filtered@.len() == database.number_entries,
                n <= u32::MAX,
                i <= n,
                cols == columns_at(*database, idxs@),
                forall|k: int| 0 <= k < idxs@.len() ==> (#[trigger] idxs@[k]) < database.metadata@.len(),
                keys@.len() == nums@.len(),
                forall|g: int| 0 <= g < nums@.len() ==> (#[trigger] nums@[g]) > 0
                    && nums@[g] == rows_with_key(filtered@, cols, key_view(keys@[g]), i as int),
                forall|g: int, h: int| 0 <= g < keys@.len() && 0 <= h < keys@.len() && g != h
                    ==> key_view(#[trigger] keys@[g]) != key_view(#[trigger] keys@[h]),
                forall|r: int| 0 <= r < i && filtered@[r] ==> exists|g: int| 0 <= g < keys@.len()
                    && key_view(#[trigger] keys@[g]) == row_key(cols, r),
            decreases n - i,
        {
            if filtered[i] {
                let key = key_of_row(database, &idxs, i);
                let mut g: usize = 0;
                let mut found = false;
                while g < keys.len() && !found
                    invariant
                        g <= keys@.len(),
                        found ==> g > 0 && key_view(keys@[g - 1]) == key_view(key),
                        !found ==> forall|h: int| 0 <= h < g ==> key_view(#[trigger] keys@[h]) != key_view(key),
                    decreases keys@.len() - g + if found { 0int } else { 1int },
                {
                    if keys[g].same_values(&key) {
                        found = true;
                    }
                    g = g + 1;
                }
                if found {
                    let j = g - 1;
                    proof {
                        lemma_rows_with_key_bound(filtered@, cols, key_view(keys@[j as int]), i as int);
                    }
                    let next = nums[j] + 1;
                    let ghost before = nums@;
                    nums.set(j, next);
                    proof {
                        assert forall|h: int| 0 <= h < nums@.len() implies (#[trigger] nums@[h]) > 0
                            && nums@[h] == rows_with_key(filtered@, cols, key_view(keys@[h]), i + 1) by {
                            if h != j {
                                assert(key_view(keys@[h]) != key_view(keys@[j as int]));
                            }
                        }
                        assert forall|r: int| 0 <= r < i + 1 && filtered@[r] implies exists|g: int| 0 <= g < keys@.len()
                            && key_view(#[trigger] keys@[g]) == row_key(cols, r) by {
                            if r == i {
                                assert(key_view(keys@[j as int]) == row_key(cols, r));
                            }
                        }
                    }
                } else {
                    proof {
                        if rows_with_key(filtered@, cols, key_view(key), i as int) > 0 {
                            lemma_rows_with_key_witness(filtered@, cols, key_view(key), i as int);
                        }
                    }
                    let ghost old_keys = keys@;
                    keys.push(key);
                    nums.push(1);
                    proof {
                        assert forall|h: int| 0 <= h < nums@.len() implies (#[trigger] nums@[h]) > 0
                            && nums@[h] == rows_with_key(filtered@, cols, key_view(keys@[h]), i + 1) by {
                            if h < old_keys.len() {
                                assert(keys@[h] == old_keys[h]);
                            }
                        }
                        assert forall|a: int, b: int| 0 <= a < keys@.len() && 0 <= b < keys@.len() && a != b
                            implies key_view(#[trigger] keys@[a]) != key_view(#[trigger] keys@[b]) by {
                            if a < old_keys.len() && b < old_keys.len() {
                                assert(keys@[a] == old_keys[a] && keys@[b] == old_keys[b]);
                            } else if a < old_keys.len() {
                                assert(keys@[a] == old_keys[a]);
                            } else {
                                assert(keys@[b] == old_keys[b]);
                            }
                        }
                        assert forall|r: int| 0 <= r < i + 1 && filtered@[r] implies exists|g: int| 0 <= g < keys@.len()
                            && key_view(#[trigger] keys@[g]) == row_key(cols, r) by {
                            if r == i {
                                assert(key_view(keys@[old_keys.len() as int]) == row_key(cols, r));
                            } else {
                                let g = choose|g: int| 0 <= g < old_keys.len() && key_view(#[trigger] old_keys[g]) == row_key(cols, r);
                                assert(keys@[g] == old_keys[g]);
                            }
                        }
                    }
                }
            } else {
                proof {
                    assert forall|h: int| 0 <= h < nums@.len() implies (#[trigger] nums@[h]) > 0
                        && nums@[h] == rows_with_key(filtered@, cols, key_view(keys@[h]), i + 1) by {}
                }
            }
            i = i + 1;
        }
        // Pair each key with its count.
        let ghost all_keys = keys@;
        let ghost all_nums = nums@;
        // Pair each key with its count: taken from the back, then turned round.
        let total = nums.len();
        let mut reversed: Vec<(AggregationKey, u32)> = Vec::new();
        while keys.len() > 0
            invariant
                total == all_nums.len() == all_keys.len(),
                keys@.len() <= total,
                keys@ == all_keys.subrange(0, keys@.len() as int),
                nums@ == all_nums,
                reversed@.len() == total - keys@.len(),
                forall|h: int| 0 <= h < reversed@.len() ==> (#[trigger] reversed@[h]).0 == all_keys[total - 1 - h]
                    && reversed@[h].1 == all_nums[total - 1 - h],
                forall|h: int| 0 <= h < all_nums.len() ==> (#[trigger] all_nums[h]) > 0
                    && all_nums[h] == rows_with_key(filtered@, cols, key_view(all_keys[h]), n as int),
                forall|a: int, b: int| 0 <= a < all_keys.len() && 0 <= b < all_keys.len() && a != b
                    ==> key_view(#[trigger] all_keys[a]) != key_view(#[trigger] all_keys[b]),
                forall|r: int| 0 <= r < n && filtered@[r] ==> exists|h: int| 0 <= h < all_keys.len()
                    && key_view(#[trigger] all_keys[h]) == row_key(cols, r),
            decreases keys@.len(),
        {
            let key = keys.pop().unwrap();
            let i = keys.len();
            reversed.push((key, nums[i]));
            proof {
                assert(keys@ =~= all_keys.subrange(0, keys@.len() as int));
            }
        }
        while reversed.len() > 0
            invariant
                total == all_nums.len() == all_keys.len(),
                reversed@.len() <= total,
                counts@.len() == total - reversed@.len(),
                forall|h: int| 0 <= h < reversed@.len() ==> (#[trigger] reversed@[h]).0 == all_keys[total - 1 - h]
                    && reversed@[h].1 == all_nums[total - 1 - h],
                forall|h: int| 0 <= h < counts@.len() ==> (#[trigger] counts@[h]).0 == all_keys[h] && counts@[h].1 == all_nums[h],
                forall|h: int| 0 <= h < all_nums.len() ==> (#[trigger] all_nums[h]) > 0
                    && all_nums[h] == rows_with_key(filtered@, cols, key_view(all_keys[h]), n as int),
                forall|a: int, b: int| 0 <= a < all_keys.len() && 0 <= b < all_keys.len() && a != b
                    ==> key_view(#[trigger] all_keys[a]) != key_view(#[trigger] all_keys[b]),
                forall|r: int| 0 <= r < n && filtered@[r] ==> exists|h: int| 0 <= h < all_keys.len()
                    && key_view(#[trigger] all_keys[h]) == row_key(cols, r),
            decreases reversed@.len(),
        {
            let pair = reversed.pop().unwrap();
            counts.push(pair);
        }
        proof {
            let res_counts = counts@;
            assert(columns_for(database.metadata@, self.fields@)->0 == cols);
            assert forall|h: int| 0 <= h < res_counts.len() implies (#[trigger] res_counts[h]).1 > 0
                && res_counts[h].1 == rows_with_key(filtered@, cols, key_view(res_counts[h].0), n as int) by {
                assert(res_counts[h].0 == all_keys[h]);
            }
            assert forall|a: int, b: int| 0 <= a < res_counts.len() && 0 <= b < res_counts.len() && a != b
                implies key_view((#[trigger] res_counts[a]).0) != key_view((#[trigger] res_counts[b]).0) by {
                assert(res_counts[a].0 == all_keys[a] && res_counts[b].0 == all_keys[b]);
            }
        }
        let res = AggregatedQueryResult { fields, counts };
        proof {
            assert forall|i: int| 0 <= i < filtered@.len() as int && filtered@[i] implies #[trigger] has_group(res.counts@, row_key(cols, i)) by {
                let g = choose|g: int| 0 <= g < all_keys.len() && key_view(#[trigger] all_keys[g]) == row_key(cols, i);
                assert(res.counts@[g].0 == all_keys[g]);
            }
        }
        Ok(res)
    }
}

/// A copy of each string.
fn clone_strings(v: &Vec<String>) -> (r: Vec<String>)
    ensures
        r@ == v@,
{
    let mut r: Vec<String> = Vec::with_capacity(v.len());
    let mut i: usize = 0;
    while i < v.len()
        invariant
            i <= v@.len(),
            r@ == v@.subrange(0, i as int),
        decreases v@.len() - i,
    {
        r.push(v[i].clone());
        proof {
            assert(v@.subrange(0, i + 1) == v@.subrange(0, i as int).push(v@[i as int]));
        }
        i = i + 1;
    }
    proof {
        assert(v@.subrange(0, i as int) == v@);
    }
    r
}

/// The strings of a JSON array whose elements are all strings.
pub open spec fn string_list(j: Option<Json>) -> Option<Seq<Seq<char>>> {
    match j {
        Some(Json::Array(items)) => if forall|i: int| 0 <= i < items@.len() ==> (#[trigger] items@[i]) is String {
            Some(Seq::new(items@.len(), |i: int| match items@[i] {
                Json::String(s) => s@,
                _ => Seq::empty(),
            }))
        } else {
            None
        },
        _ => None,
    }
}

/// The contents of each string.
pub open spec fn texts(v: Seq<String>) -> Seq<Seq<char>> {
    v.map_values(|s: String| s@)
}

/// Reads the `fields` member: an array of strings.
fn fields_from_json(json: &Json) -> (r: Option<Vec<String>>)
    ensures
        match string_list(member(*json, "fields"@)) {
            Some(fs) => r matches Some(v) && texts(v@) == fs,
            None => r is None,
        },
{
    let o = match json {
        Json::Object(o) => o,
        _ => return None,
    };
    let field = get_field(o, "fields");
    let items = match field {
        Some(Json::Array(items)) => items,
        _ => return None,
    };
    proof {
        assert(member(*json, "fields"@) == Some(Json::Array(*items)));
    }
    let mut fields: Vec<String> = Vec::new();
    let mut i: usize = 0;
    while i < items.len()
        invariant
            member(*json, "fields"@) == Some(Json::Array(*items)),
            i <= items@.len(),
            fields@.len() == i,
            forall|k: int| 0 <= k < i ==> (#[trigger] items@[k]) is String,
            forall|k: int| 0 <= k < i ==> (#[trigger] fields@[k])@ == match items@[k] {
                Json::String(s) => s@,
                _ => Seq::empty(),
            },
        decreases items@.len() - i,
    {
        match &items[i] {
            Json::String(s) => fields.push(s.clone()),
            _ => {
                proof {
                    assert(!(items@[i as int] is String));
                }
                return None;
            },
        }
        i = i + 1;
    }
    proof {
        let fs = string_list(member(*json, "fields"@))->0;
        assert(texts(fields@) =~= fs);
    }
    Some(fields)
}

impl AggregatedQuery {
    /// Reads `{"fields": [string, ...]}`.
    pub fn from_json_value(json: &Json) -> (r: Option<AggregatedQuery>)
        ensures
            match string_list(member(*json, "fields"@)) {
                Some(fs) => r matches Some(q) && texts(q.fields@) == fs,
                None => r is None,
            },
    {
        match fields_from_json(json) {
            Some(fields) => Some(AggregatedQuery { fields }),
            None => None,
        }
    }
}

/// Lists the named columns of each selected sequence.
pub struct DetailsQuery {
    pub fields: Vec<String>,
}

impl DetailsQuery {
    /// Reads `{"fields": [string, ...]}`.
    pub fn from_json_value(json: &Json) -> (r: Option<DetailsQuery>)
        ensures
            match string_list(member(*json, "fields"@)) {
                Some(fs) => r matches Some(q) && texts(q.fields@) == fs,
                None => r is None,
            },
    {
        match fields_from_json(json) {
            Some(fields) => Some(DetailsQuery { fields }),
            None => None,
        }
    }
}

/// Hands out the selected sequences, aligned or not.
pub struct NucSequencesQuery {
    pub aligned: bool,
}

impl NucSequencesQuery {
    /// Reads `{"aligned": bool}`.
    pub fn from_json_value(json: &Json) -> (r: Option<NucSequencesQuery>)
        ensures
            match member(*json, "aligned"@) {
                Some(Json::Bool(b)) => r matches Some(q) && q.aligned == b,
                _ => r is None,
            },
    {
        match json {
            Json::Object(o) => match get_field(o, "aligned") {
                Some(Json::Bool(b)) => Some(NucSequencesQuery { aligned: *b }),
                _ => None,
            },
            _ => None,
        }
    }
}

/// The ISO text (`YYYY-MM-DD`) of the date `days` days after 1970-01-01,
/// where that date can be written.
pub uninterp spec fn iso_date_of(days: i32) -> Option<Seq<char>>;

/// Relies on `chrono::NaiveDate::checked_add_signed` and `format("%Y-%m-%d")`:
/// the text depends on `days` alone, and there is none past chrono's range.
#[verifier::external_body]
fn date_text(days: i32) -> (r: Option<String>)
    ensures
        match iso_date_of(days) {
            Some(t) => r matches Some(s) && s@ == t,
            None => r is None,
        },
{
    let epoch = chrono::NaiveDate::from_ymd_opt(1970, 1, 1)?;
    let date = epoch.checked_add_signed(chrono::Duration::days(days as i64))?;
    Some(date.format("%Y-%m-%d").to_string())
}

/// How many of the first `k` fields are strings.
pub open spec fn strings_before(types: Seq<DataType>, k: int) -> int
    decreases k,
{
    if k <= 0 {
        0
    } else {
        strings_before(types, k - 1) + if types[k - 1] == DataType::String { 1int } else { 0int }
    }
}

/// How many of the first `k` fields are integers or dates.
pub open spec fn ints_before(types: Seq<DataType>, k: int) -> int {
    k - strings_before(types, k)
}

/// A JSON integer.
pub open spec fn int_number(v: int) -> JsonNumber {
    JsonNumber {
        as_u64: if 0 <= v <= u64::MAX { Some(v as u64) } else { None },
        as_i64: if i64::MIN <= v <= i64::MAX { Some(v as i64) } else { None },
    }
}

/// Whether the key has a slot for field `k` of the given types, and a date
/// there can be written.
pub open spec fn cell_ok(key: AggregationKey, types: Seq<DataType>, k: int) -> bool {
    if types[k] == DataType::String {
        strings_before(types, k) < key.strs@.len()
    } else {
        &&& ints_before(types, k) < key.ints@.len()
        &&& types[k] == DataType::Date ==> (key.ints@[ints_before(types, k)] matches Some(d) ==> iso_date_of(d) is Some)
    }
}

/// Whether `j` is the value of field `k` of the key: null for a null cell, a
/// string, an integer, or an ISO date by the field's type, read from the
/// string slot or the integer slot counted among the earlier fields of that kind.
pub open spec fn cell_value(j: Json, key: AggregationKey, types: Seq<DataType>, k: int) -> bool {
    if types[k] == DataType::String {
        match key.strs@[strings_before(types, k)] {
            None => j is Null,
            Some(s) => j matches Json::String(t) && t@ == s@,
        }
    } else {
        match key.ints@[ints_before(types, k)] {
            None => j is Null,
            Some(v) => if types[k] == DataType::Integer {
                j == Json::Number(int_number(v as int))
            } else {
                j matches Json::String(t) && Some(t@) == iso_date_of(v)
            },
        }
    }
}

/// Whether `j` is the JSON object of one group: one member per field, named
/// by it and holding its value, then the integer `count`.
pub open spec fn group_object(j: Json, fields: Seq<String>, types: Seq<DataType>, key: AggregationKey, count: u32) -> bool {
    match j {
        Json::Object(o) => {
            &&& o@.len() == fields.len() + 1
            &&& forall|k: int| 0 <= k < fields.len() ==> (#[trigger] o@[k]).0@ == fields[k]@ && cell_value(o@[k].1, key, types, k)
            &&& o@[fields.len() as int].0@ == "count"@
            &&& o@[fields.len() as int].1 == Json::Number(int_number(count as int))
        },
        _ => false,
    }
}

proof fn lemma_before_step(types: Seq<DataType>, k: int)
    requires
        0 <= k,
    ensures
        0 <= strings_before(types, k) <= k,
        strings_before(types, k + 1) == strings_before(types, k) + if types[k] == DataType::String { 1int } else { 0int },
    decreases k,
{
    if k > 0 {
        lemma_before_step(types, k - 1);
    }
}

fn json_int(v: i64) -> (r: Json)
    ensures
        r == Json::Number(int_number(v as int)),
{
    Json::Number(JsonNumber { as_u64: if v >= 0 { Some(v as u64) } else { None }, as_i64: Some(v) })
}

impl AggregatedQueryResult {
    /// The groups as JSON: one object per group, in order, whose members are
    /// the fields, typed by `types`, and the integer `count`. `None` exactly
    /// where a key lacks a slot that the types ask for, or holds a date that
    /// cannot be written.
    pub fn to_json_value(&self, types: &Vec<DataType>) -> (r: Option<Json>)
        requires
            types@.len() == self.fields@.len(),
        ensures
            r is Some <==> forall|g: int, k: int| 0 <= g < self.counts@.len() && 0 <= k < types@.len()
                ==> #[trigger] cell_ok(self.counts@[g].0, types@, k),
            r matches Some(Json::Array(items)) ==> items@.len() == self.counts@.len()
                && forall|g: int| 0 <= g < items@.len() ==> group_object(#[trigger] items@[g], self.fields@, types@,
                    self.counts@[g].0, self.counts@[g].1),
            r is Some ==> r matches Some(Json::Array(_)),
    {
        let n = self.fields.len();
        let mut items: Vec<Json> = Vec::new();
        let mut g: usize = 0;
        while g < self.counts.len()
            invariant
                n == self.fields@.len() == types@.len(),
                g <= self.counts@.len(),
                items@.len() == g,
                forall|h: int, k: int| 0 <= h < g && 0 <= k < n ==> #[trigger] cell_ok(self.counts@[h].0, types@, k),
                forall|h: int| 0 <= h < g ==> group_object(#[trigger] items@[h], self.fields@, types@,
                    self.counts@[h].0, self.counts@[h].1),
            decreases self.counts@.len() - g,
        {
            let key = &self.counts[g].0;
            let mut members: Vec<(String, Json)> = Vec::new();
            let mut si: usize = 0;
            let mut ii: usize = 0;
            let mut k: usize = 0;
            while k < n
                invariant
                    n == self.fields@.len() == types@.len(),
                    g < self.counts@.len(),
                    *key == self.counts@[g as int].0,
                    k <= n,
                    si == strings_before(types@, k as int),
                    ii == ints_before(types@, k as int),
                    members@.len() == k,
                    forall|j: int| 0 <= j < k ==> cell_ok(*key, types@, j),
                    forall|j: int| 0 <= j < k ==> (#[trigger] members@[j]).0@ == self.fields@[j]@ && cell_value(members@[j].1, *key, types@, j),
                decreases n - k,
            {
                proof {
                    lemma_before_step(types@, k as int);
                }
                let t = types[k];
                let value = if t == DataType::String {
                    if si >= key.strs.len() {
                        proof { assert(!cell_ok(self.counts@[g as int].0, types@, k as int)); }
                        return None;
                    }
                    let v = match &key.strs[si] {
                        None => Json::Null,
                        Some(s) => Json::String(s.clone()),
                    };
                    si = si + 1;
                    v
                } else {
                    if ii >= key.ints.len() {
                        proof { assert(!cell_ok(self.counts@[g as int].0, types@, k as int)); }
                        return None;
                    }
                    let v = match key.ints[ii] {
                        None => Json::Null,
                        Some(x) => if t == DataType::Integer {
                            json_int(x as i64)
                        } else {
                            match date_text(x) {
                                Some(text) => Json::String(text),
                                None => {
                                    proof { assert(!cell_ok(self.counts@[g as int].0, types@, k as int)); }
                                    return None;
                                },
                            }
                        },
                    };
                    ii = ii + 1;
                    v
                };
                members.push((self.fields[k].clone(), value));
                k = k + 1;
            }
            proof {
                reveal_strlit("count");
            }
            members.push(("count".to_owned(), json_int(self.counts[g].1 as i64)));
            items.push(Json::Object(members));
            g = g + 1;
        }
        Some(Json::Array(items))
    }
}

} // verus!
