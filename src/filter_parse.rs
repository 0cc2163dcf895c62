use crate::filters::{And, DateBetw, Filter, IntBetw, NOf, Neg, NucEq, Or, StrEq};
use crate::json::{field_pos, get_field, lemma_field_pos_range, Json};
use crate::nuc_code::{code_of_byte, NucCode};
use vstd::prelude::*;
use vstd::string::StrSliceExecFns;

verus! {

/// The number of days from 1970-01-01 to the date that `s` writes as
/// `YYYY-MM-DD`, where `s` is such a date and the number fits.
pub uninterp spec fn date_days_of(s: Seq<char>) -> Option<i32>;

/// Relies on `chrono::NaiveDate::parse_from_str(s, "%Y-%m-%d")` and on the
/// difference of two `NaiveDate`s in days: the result depends on `s` alone.
#[verifier::external_body]
fn parse_date_days(s: &str) -> (r: Option<i32>)
    ensures
        r == date_days_of(s@),
{
    let date = chrono::NaiveDate::parse_from_str(s, "%Y-%m-%d").ok()?;
    let epoch = chrono::NaiveDate::from_ymd_opt(1970, 1, 1)?;
    i32::try_from((date - epoch).num_days()).ok()
}

/// The number of days from 1970-01-01 to the date that `s` writes as `YYYY-MM-DD`.
pub fn parse_date(s: &str) -> (r: Option<i32>)
    ensures
        r == date_days_of(s@),
{
    parse_date_days(s)
}

/// The member `key` of an object.
pub open spec fn member(j: Json, key: Seq<char>) -> Option<Json> {
    match j {
        Json::Object(o) => {
            let p = field_pos(o@, key, 0);
            if p < o@.len() { Some(o@[p].1) } else { None }
        },
        _ => None,
    }
}

/// The value of the `type` member, where it is a string.
pub open spec fn kind_of(j: Json) -> Option<Seq<char>> {
    match member(j, "type"@) {
        Some(Json::String(t)) => Some(t@),
        _ => None,
    }
}

/// The string in a member, where it is one.
pub open spec fn string_member(j: Json, key: Seq<char>) -> Option<Seq<char>> {
    match member(j, key) {
        Some(Json::String(s)) => Some(s@),
        _ => None,
    }
}

/// An optional integer bound: absent or null gives no bound, an integer in
/// the range of `i32` gives that bound; anything else is malformed (`None`).
pub open spec fn int_bound(b: Option<Json>) -> Option<Option<i32>> {
    match b {
        None => Some(None),
        Some(Json::Null) => Some(None),
        Some(Json::Number(n)) => match n.as_i64 {
            Some(v) => if i32::MIN <= v <= i32::MAX { Some(Some(v as i32)) } else { None },
            None => None,
        },
        _ => None,
    }
}

/// An optional date bound, in days since 1970-01-01: absent or null gives no
/// bound, a `YYYY-MM-DD` string gives that date; anything else is malformed.
pub open spec fn date_bound(b: Option<Json>) -> Option<Option<i32>> {
    match b {
        None => Some(None),
        Some(Json::Null) => Some(None),
        Some(Json::String(s)) => match date_days_of(s@) {
            Some(d) => Some(Some(d)),
            None => None,
        },
        _ => None,
    }
}

/// The symbol that a one-character string names.
pub open spec fn symbol_of(s: Seq<char>) -> Option<NucCode> {
    if s.len() == 1 && (s[0] as u32) < 128 { code_of_byte(s[0] as u8) } else { None }
}

/// A non-negative integer member that fits a `u32`.
pub open spec fn u32_member(j: Json, key: Seq<char>) -> Option<u32> {
    match member(j, key) {
        Some(Json::Number(n)) => match n.as_u64 {
            Some(v) => if v <= u32::MAX { Some(v as u32) } else { None },
            None => None,
        },
        _ => None,
    }
}

/// Whether `f` is the filter that the document `j` describes. A document
/// that describes no filter stands in this relation with none.
pub open spec fn json_is_filter(j: Json, f: Filter) -> bool
    decreases j,
{
    match j {
        Json::Object(o) => {
            let t = kind_of(j);
            let p_children = field_pos(o@, "children"@, 0);
            let p_child = field_pos(o@, "child"@, 0);
            proof {
                lemma_field_pos_range(o@, "children"@, 0);
                lemma_field_pos_range(o@, "child"@, 0);
                if p_children < o@.len() {
                    assert(decreases_to!(j => o));
                    assert(decreases_to!(o => o@));
                    assert(decreases_to!(o@ => o@[p_children]));
                    assert(decreases_to!(o@[p_children] => o@[p_children].1));
                    match o@[p_children].1 {
                        Json::Array(cs) => {
                            assert(decreases_to!(o@[p_children].1 => cs));
                            assert(decreases_to!(cs => cs@));
                        },
                        _ => {},
                    }
                }
                if p_child < o@.len() {
                    assert(decreases_to!(j => o));
                    assert(decreases_to!(o => o@));
                    assert(decreases_to!(o@ => o@[p_child]));
                    assert(decreases_to!(o@[p_child] => o@[p_child].1));
                }
            }
            if t == Some("And"@) || t == Some("Or"@) {
                p_children < o@.len() && match o@[p_children].1 {
                    Json::Array(cs) => match f {
                        Filter::And(a) => t == Some("And"@) && json_are_filters(cs@, a.children@),
                        Filter::Or(a) => t == Some("Or"@) && json_are_filters(cs@, a.children@),
                        _ => false,
                    },
                    _ => false,
                }
            } else if t == Some("Neg"@) {
                p_child < o@.len() && match f {
                    Filter::Neg(g) => json_is_filter(o@[p_child].1, *g.child),
                    _ => false,
                }
            } else if t == Some("StrEq"@) {
                match (string_member(j, "column"@), string_member(j, "value"@), f) {
                    (Some(c), Some(v), Filter::StrEq(s)) => s.column@ == c && s.value@ == v,
                    _ => false,
                }
            } else if t == Some("IntBetw"@) {
                match (string_member(j, "column"@), int_bound(member(j, "from"@)), int_bound(member(j, "to"@)), f) {
                    (Some(c), Some(from), Some(to), Filter::IntBetw(b)) => b.column@ == c && b.from == from && b.to == to,
                    _ => false,
                }
            } else if t == Some("DateBetw"@) {
                match (string_member(j, "column"@), date_bound(member(j, "from"@)), date_bound(member(j, "to"@)), f) {
                    (Some(c), Some(from), Some(to), Filter::DateBetw(d)) => d.int_betw.column@ == c
                        && d.int_betw.from == from && d.int_betw.to == to,
                    _ => false,
                }
            } else if t == Some("NucEq"@) {
                match (u32_member(j, "position"@), string_member(j, "value"@), f) {
                    (Some(p), Some(v), Filter::NucEq(e)) => symbol_of(v) == Some(e.value) && e.position == p,
                    _ => false,
                }
            } else if t == Some("NOf"@) {
                p_children < o@.len() && match (u32_member(j, "n"@), member(j, "exactly"@), o@[p_children].1, f) {
                    (Some(n), Some(Json::Bool(exactly)), Json::Array(cs), Filter::NOf(g)) => g.n == n && g.exactly == exactly
                        && json_are_filters(cs@, g.children@),
                    _ => false,
                }
            } else {
                false
            }
        },
        _ => false,
    }
}

/// Whether each filter is the one that the document at the same index describes.
pub open spec fn json_are_filters(js: Seq<Json>, fs: Seq<Filter>) -> bool
    decreases js,
{
    if js.len() == 0 {
        fs.len() == 0
    } else {
        fs.len() == js.len() && json_are_filters(js.drop_last(), fs.drop_last()) && json_is_filter(js.last(), fs.last())
    }
}

/// The member `key` of an object.
fn member_of<'a>(json: &'a Json, key: &str) -> (r: Option<&'a Json>)
    ensures
        match member(*json, key@) {
            Some(v) => r matches Some(x) && *x == v,
            None => r is None,
        },
{
    match json {
        Json::Object(o) => get_field(o, key),
        _ => None,
    }
}

/// Whether a string holds exactly the text `w`.
fn is_text(s: &String, w: &str) -> (r: bool)
    ensures
        r == (s@ == w@),
{
    let o = w.to_owned();
    *s == o
}

/// A copy of a string.
fn copy_string(s: &String) -> (r: String)
    ensures
        r@ == s@,
{
    s.clone()
}

fn string_member_of(json: &Json, key: &str) -> (r: Option<String>)
    ensures
        match string_member(*json, key@) {
            Some(v) => r matches Some(x) && x@ == v,
            None => r is None,
        },
{
    match member_of(json, key) {
        Some(Json::String(s)) => Some(copy_string(s)),
        _ => None,
    }
}

fn int_bound_of(json: &Json, key: &str) -> (r: Option<Option<i32>>)
    ensures
        r == int_bound(member(*json, key@)),
{
    match member_of(json, key) {
        None => Some(None),
        Some(Json::Null) => Some(None),
        Some(Json::Number(n)) => match n.as_i64 {
            Some(v) => if i32::MIN as i64 <= v && v <= i32::MAX as i64 { Some(Some(v as i32)) } else { None },
            None => None,
        },
        _ => None,
    }
}

fn date_bound_of(json: &Json, key: &str) -> (r: Option<Option<i32>>)
    ensures
        r == date_bound(member(*json, key@)),
{
    match member_of(json, key) {
        None => Some(None),
        Some(Json::Null) => Some(None),
        Some(Json::String(s)) => match parse_date_days(s.as_str()) {
            Some(d) => Some(Some(d)),
            None => None,
        },
        _ => None,
    }
}

fn u32_member_of(json: &Json, key: &str) -> (r: Option<u32>)
    ensures
        r == u32_member(*json, key@),
{
    match member_of(json, key) {
        Some(Json::Number(n)) => match n.as_u64 {
            Some(v) => if v <= u32::MAX as u64 { Some(v as u32) } else { None },
            None => None,
        },
        _ => None,
    }
}

/// Reads a list of filter documents; `None` where one of them describes no filter.
fn filters_from_json(cs: &Vec<Json>) -> (r: Option<Vec<Filter>>)
    ensures
        r matches Some(v) ==> json_are_filters(cs@, v@),
        r is None ==> forall|fs: Seq<Filter>| !json_are_filters(cs@, fs),
    decreases cs,
{
    let mut parsed: Vec<Filter> = Vec::new();
    let mut i: usize = 0;
    while i < cs.len()
        invariant
            i <= cs@.len(),
            json_are_filters(cs@.subrange(0, i as int), parsed@),
        decreases cs@.len() - i,
    {
        proof {
            assert(cs@.subrange(0, i + 1).drop_last() == cs@.subrange(0, i as int));
            assert(cs@.subrange(0, i + 1).last() == cs@[i as int]);
            assert(decreases_to!(cs => cs@));
            assert(decreases_to!(cs@ => cs@[i as int]));
        }
        match from_json_value(&cs[i]) {
            Some(f) => {
                let ghost before = parsed@;
                parsed.push(f);
                proof {
                    assert(parsed@.drop_last() == before);
                    lemma_json_are_filters_len(cs@.subrange(0, i as int), before);
                }
            },
            None => {
                proof {
                    assert forall|fs: Seq<Filter>| !json_are_filters(cs@, fs) by {
                        if json_are_filters(cs@, fs) {
                            lemma_json_are_filters_index(cs@, fs, i as int);
                        }
                    }
                }
                return None;
            },
        }
        i = i + 1;
    }
    proof {
        assert(cs@.subrange(0, i as int) == cs@);
    }
    Some(parsed)
}

proof fn lemma_json_are_filters_len(js: Seq<Json>, fs: Seq<Filter>)
    requires
        json_are_filters(js, fs),
    ensures
        fs.len() == js.len(),
{
}

/// Related lists relate at every index.
proof fn lemma_json_are_filters_index(js: Seq<Json>, fs: Seq<Filter>, i: int)
    requires
        json_are_filters(js, fs),
        0 <= i < js.len(),
    ensures
        json_is_filter(js[i], fs[i]),
    decreases js.len(),
{
    if i < js.len() - 1 {
        assert(js.drop_last()[i] == js[i]);
        assert(fs.drop_last()[i] == fs[i]);
        lemma_json_are_filters_index(js.drop_last(), fs.drop_last(), i);
    }
}

/// Reads a filter from its document: an object whose `type` member names the
/// kind of filter and whose other members hold its parameters. `None` where the
/// document describes no filter.
pub fn from_json_value(json: &Json) -> (r: Option<Filter>)
    ensures
        r matches Some(f) ==> json_is_filter(*json, f),
        r is None ==> forall|f: Filter| !json_is_filter(*json, f),
    decreases json,
{
    let o = match json {
        Json::Object(o) => o,
        _ => return None,
    };
    let t = match member_of(json, "type") {
        Some(Json::String(t)) => t,
        _ => return None,
    };
    if is_text(t, "And") || is_text(t, "Or") {
        let children = match get_field(o, "children") {
            Some(Json::Array(cs)) => cs,
            _ => return None,
        };
        proof {
            let p = field_pos(o@, "children"@, 0);
            lemma_field_pos_range(o@, "children"@, 0);
            assert(decreases_to!(*json => *o));
            assert(decreases_to!(*o => o@));
            assert(decreases_to!(o@ => o@[p]));
            assert(decreases_to!(o@[p] => o@[p].1));
        }
        let parsed = match filters_from_json(children) {
            Some(v) => v,
            None => {
                proof {
                    let p = field_pos(o@, "children"@, 0);
                    assert(o@[p].1 == Json::Array(*children));
                    assert forall|f: Filter| !json_is_filter(*json, f) by {
                        if json_is_filter(*json, f) {
                            match f {
                                Filter::And(a) => assert(json_are_filters(children@, a.children@)),
                                Filter::Or(a) => assert(json_are_filters(children@, a.children@)),
                                Filter::NOf(g) => assert(json_are_filters(children@, g.children@)),
                                _ => {},
                            }
                        }
                    }
                }
                return None;
            },
        };
        if is_text(t, "And") {
            Some(Filter::And(And { children: parsed }))
        } else {
            Some(Filter::Or(Or { children: parsed }))
        }
    } else if is_text(t, "Neg") {
        let child = match get_field(o, "child") {
            Some(c) => c,
            None => return None,
        };
        proof {
            let p = field_pos(o@, "child"@, 0);
            lemma_field_pos_range(o@, "child"@, 0);
            assert(decreases_to!(*json => *o));
            assert(decreases_to!(*o => o@));
            assert(decreases_to!(o@ => o@[p]));
            assert(decreases_to!(o@[p] => o@[p].1));
        }
        match from_json_value(child) {
            Some(f) => Some(Filter::Neg(Neg { child: Box::new(f) })),
            None => {
                proof {
                    let p = field_pos(o@, "child"@, 0);
                    assert(o@[p].1 == *child);
                    assert forall|f: Filter| !json_is_filter(*json, f) by {
                        if json_is_filter(*json, f) {
                            match f {
                                Filter::Neg(g) => assert(json_is_filter(*child, *g.child)),
                                _ => {},
                            }
                        }
                    }
                }
                None
            },
        }
    } else if is_text(t, "StrEq") {
        match (string_member_of(json, "column"), string_member_of(json, "value")) {
            (Some(column), Some(value)) => Some(Filter::StrEq(StrEq { column, value })),
            _ => None,
        }
    } else if is_text(t, "IntBetw") {
        match (string_member_of(json, "column"), int_bound_of(json, "from"), int_bound_of(json, "to")) {
            (Some(column), Some(from), Some(to)) => Some(Filter::IntBetw(IntBetw { column, from, to })),
            _ => None,
        }
    } else if is_text(t, "DateBetw") {
        match (string_member_of(json, "column"), date_bound_of(json, "from"), date_bound_of(json, "to")) {
            (Some(column), Some(from), Some(to)) => Some(Filter::DateBetw(DateBetw { int_betw: IntBetw { column, from, to } })),
            _ => None,
        }
    } else if is_text(t, "NucEq") {
        let position = match u32_member_of(json, "position") {
            Some(p) => p,
            None => return None,
        };
        let value = match member_of(json, "value") {
            Some(Json::String(v)) => v,
            _ => return None,
        };
        let vs = value.as_str();
        if vs.unicode_len() != 1 {
            return None;
        }
        let c = vs.get_char(0);
        if (c as u32) >= 128 {
            return None;
        }
        match NucCode::from_byte(&(c as u8)) {
            Some(code) => Some(Filter::NucEq(NucEq { position, value: code })),
            None => None,
        }
    } else if is_text(t, "NOf") {
        let children = match get_field(o, "children") {
            Some(Json::Array(cs)) => cs,
            _ => return None,
        };
        proof {
            let p = field_pos(o@, "children"@, 0);
            lemma_field_pos_range(o@, "children"@, 0);
            assert(decreases_to!(*json => *o));
            assert(decreases_to!(*o => o@));
            assert(decreases_to!(o@ => o@[p]));
            assert(decreases_to!(o@[p] => o@[p].1));
        }
        let parsed = match filters_from_json(children) {
            Some(v) => v,
            None => {
                proof {
                    let p = field_pos(o@, "children"@, 0);
                    assert(o@[p].1 == Json::Array(*children));
                    assert forall|f: Filter| !json_is_filter(*json, f) by {
                        if json_is_filter(*json, f) {
                            match f {
                                Filter::And(a) => assert(json_are_filters(children@, a.children@)),
                                Filter::Or(a) => assert(json_are_filters(children@, a.children@)),
                                Filter::NOf(g) => assert(json_are_filters(children@, g.children@)),
                                _ => {},
                            }
                        }
                    }
                }
                return None;
            },
        };
        let n = match u32_member_of(json, "n") {
            Some(n) => n,
            None => return None,
        };
        let exactly = match member_of(json, "exactly") {
            Some(Json::Bool(b)) => *b,
            _ => return None,
        };
        Some(Filter::NOf(NOf { n, exactly, children: parsed }))
    } else {
        None
    }
}

} // verus!
