use vstd::prelude::*;

verus! {

/// A JSON number as the parser reports it: its value as a `u64` and as an
/// `i64`, where it is an integer in those ranges.
#[derive(Clone, Copy, Debug, PartialEq, Eq, Structural)]
pub struct JsonNumber {
    pub as_u64: Option<u64>,
    pub as_i64: Option<i64>,
}

/// A parsed JSON document. An object keeps its members in order; a key that
/// occurs twice is read at its first occurrence.
pub enum Json {
    Null,
    Bool(bool),
    Number(JsonNumber),
    String(String),
    Array(Vec<Json>),
    Object(Vec<(String, Json)>),
}

/// The position of the first member named `key` at or after `i`, or the length.
pub open spec fn field_pos(o: Seq<(String, Json)>, key: Seq<char>, i: int) -> int
    decreases o.len() - i,
{
    if i >= o.len() || i < 0 {
        o.len() as int
    } else if o[i].0@ == key {
        i
    } else {
        field_pos(o, key, i + 1)
    }
}

pub proof fn lemma_field_pos_range(o: Seq<(String, Json)>, key: Seq<char>, i: int)
    requires
        0 <= i,
    ensures
        i <= field_pos(o, key, i) <= o.len() || (i > o.len() && field_pos(o, key, i) == o.len()),
        field_pos(o, key, i) < o.len() ==> o[field_pos(o, key, i)].0@ == key,
        forall|k: int| i <= k < field_pos(o, key, i) ==> (#[trigger] o[k]).0@ != key,
    decreases o.len() - i,
{
    if i < o.len() && o[i].0@ != key {
        lemma_field_pos_range(o, key, i + 1);
    }
}

/// The first member of an object named `key`.
pub fn get_field<'a>(o: &'a Vec<(String, Json)>, key: &str) -> (r: Option<&'a Json>)
    ensures
        field_pos(o@, key@, 0) < o@.len() ==> (r matches Some(v) && *v == o@[field_pos(o@, key@, 0)].1),
        field_pos(o@, key@, 0) >= o@.len() ==> r is None,
{
    let k = key.to_owned();
    let mut i: usize = 0;
    while i < o.len()
        invariant
            i <= o@.len(),
            k@ == key@,
            field_pos(o@, key@, 0) == field_pos(o@, key@, i as int),
        decreases o@.len() - i,
    {
        if o[i].0 == k {
            return Some(&o[i].1);
        }
        i = i + 1;
    }
    None
}

} // verus!
