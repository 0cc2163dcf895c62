use crate::decimal::{decimal_of, parse_decimal};
use vstd::prelude::*;
use vstd::string::StringSliceAdditionalSpecFns;

verus! {

/// The index of the first `-` in `t` at or after `i`, or the length of `t`.
pub open spec fn first_dash_from(t: Seq<u8>, i: int) -> int
    decreases t.len() - i,
{
    if i >= t.len() {
        t.len() as int
    } else if t[i] == 0x2D {
        i
    } else {
        first_dash_from(t, i + 1)
    }
}

/// The inclusive range of positions that one compressed token names: a single
/// position (`"17"`) or a range (`"5-8"`) whose start does not exceed its end.
pub open spec fn range_of_token(t: Seq<u8>) -> Option<(usize, usize)> {
    let d = first_dash_from(t, 0);
    if d == t.len() {
        match decimal_of(t) {
            Some(p) => Some((p, p)),
            None => None,
        }
    } else {
        match (decimal_of(t.subrange(0, d)), decimal_of(t.subrange(d + 1, t.len() as int))) {
            (Some(a), Some(b)) => if a <= b { Some((a, b)) } else { None },
            _ => None,
        }
    }
}

/// The ranges of a list of tokens, where every token is well formed.
pub open spec fn ranges_of_tokens(ts: Seq<Seq<u8>>) -> Option<Seq<(usize, usize)>>
    decreases ts.len(),
{
    if ts.len() == 0 {
        Some(Seq::empty())
    } else {
        match (ranges_of_tokens(ts.drop_last()), range_of_token(ts.last())) {
            (Some(rs), Some(r)) => Some(rs.push(r)),
            _ => None,
        }
    }
}

/// The bytes of each token.
pub open spec fn token_bytes(ts: Seq<&str>) -> Seq<Seq<u8>> {
    ts.map_values(|t: &str| t.spec_bytes())
}

/// Each range ends before the next one starts, and no range ends before it starts.
pub open spec fn ranges_sorted(rs: Seq<(usize, usize)>) -> bool {
    &&& forall|i: int| 0 <= i < rs.len() ==> (#[trigger] rs[i]).0 <= rs[i].1
    &&& forall|i: int| 0 <= i < rs.len() - 1 ==> (#[trigger] rs[i]).1 < rs[i + 1].0
}

/// Whether the inclusive range `r` holds the position `p`.
pub open spec fn in_range(r: (usize, usize), p: int) -> bool {
    r.0 <= p <= r.1
}

/// How many of the ranges hold the position `p`.
pub open spec fn covers(rs: Seq<(usize, usize)>, p: int) -> nat
    decreases rs.len(),
{
    if rs.len() == 0 {
        0
    } else {
        covers(rs.drop_last(), p) + if in_range(rs.last(), p) { 1nat } else { 0nat }
    }
}

/// Sorted ranges hold each position at most once, and exactly once where one of them holds it.
pub proof fn lemma_covers_sorted(rs: Seq<(usize, usize)>, p: int)
    requires
        ranges_sorted(rs),
    ensures
        covers(rs, p) <= 1,
        covers(rs, p) == 1 <==> exists|i: int| 0 <= i < rs.len() && #[trigger] in_range(rs[i], p),
    decreases rs.len(),
{
    if rs.len() > 0 {
        let pre = rs.drop_last();
        assert(ranges_sorted(pre)) by {
            assert forall|i: int| 0 <= i < pre.len() - 1 implies (#[trigger] pre[i]).1 < pre[i + 1].0 by {
                assert(pre[i] == rs[i] && pre[i + 1] == rs[i + 1]);
            }
            assert forall|i: int| 0 <= i < pre.len() implies (#[trigger] pre[i]).0 <= pre[i].1 by {
                assert(pre[i] == rs[i]);
            }
        }
        lemma_covers_sorted(pre, p);
        let last = rs.last();
        if in_range(last, p) {
            assert forall|i: int| 0 <= i < pre.len() implies !#[trigger] in_range(pre[i], p) by {
                lemma_sorted_ends_below(rs, i);
            }
        }
        if covers(rs, p) == 1 {
            if covers(pre, p) == 1 {
                let i = choose|i: int| 0 <= i < pre.len() && #[trigger] in_range(pre[i], p);
                assert(rs[i] == pre[i]);
            } else {
                assert(rs[rs.len() - 1] == last);
            }
        }
        if exists|i: int| 0 <= i < rs.len() && #[trigger] in_range(rs[i], p) {
            let i = choose|i: int| 0 <= i < rs.len() && #[trigger] in_range(rs[i], p);
            if i < pre.len() {
                assert(pre[i] == rs[i]);
            }
        }
    }
}

/// In sorted ranges, every range but the last ends before the last one starts.
proof fn lemma_sorted_ends_below(rs: Seq<(usize, usize)>, i: int)
    requires
        ranges_sorted(rs),
        0 <= i < rs.len() - 1,
    ensures
        rs[i].1 < rs.last().0,
    decreases rs.len() - 1 - i,
{
    if i < rs.len() - 2 {
        lemma_sorted_ends_below(rs, i + 1);
        assert(rs[i].1 < rs[i + 1].0);
        assert(rs[i + 1].0 <= rs[i + 1].1);
    }
}

/// Reads one compressed token of unknown positions: `"17"` or `"5-8"`.
pub fn parse_unknown_token(token: &str) -> (r: Option<(usize, usize)>)
    ensures
        r == range_of_token(token.spec_bytes()),
{
    let bytes = token.as_bytes();
    let n = bytes.len();
    let mut d: usize = 0;
    while d < n && bytes[d] != 0x2D
        invariant
            d <= n == bytes@.len(),
            first_dash_from(bytes@, 0) == first_dash_from(bytes@, d as int),
        decreases n - d,
    {
        d = d + 1;
    }
    proof {
        assert(first_dash_from(bytes@, d as int) == d);
        assert(bytes@.subrange(0, n as int) == bytes@);
    }
    if d == n {
        match parse_decimal(bytes, 0, n) {
            Some(p) => Some((p, p)),
            None => None,
        }
    } else {
        let a = parse_decimal(bytes, 0, d);
        let b = parse_decimal(bytes, d + 1, n);
        match (a, b) {
            (Some(a), Some(b)) => if a <= b { Some((a, b)) } else { None },
            _ => None,
        }
    }
}

/// Reads a list of compressed tokens into ranges, which must be sorted.
pub fn parse_unknown_ranges(tokens: &Vec<&str>) -> (r: Option<Vec<(usize, usize)>>)
    ensures
        match ranges_of_tokens(token_bytes(tokens@)) {
            Some(rs) => if ranges_sorted(rs) { r matches Some(v) && v@ == rs } else { r is None },
            None => r is None,
        },
{
    let mut ranges: Vec<(usize, usize)> = Vec::new();
    let mut sorted = true;
    let mut i: usize = 0;
    while i < tokens.len()
        invariant
            i <= tokens@.len(),
            ranges_of_tokens(token_bytes(tokens@.subrange(0, i as int))) == Some(ranges@),
            sorted == ranges_sorted(ranges@),
            ranges@.len() == i,
        decreases tokens@.len() - i,
    {
        let ghost pre = tokens@.subrange(0, i as int);
        let ghost post = tokens@.subrange(0, i + 1);
        proof {
            assert(token_bytes(post).drop_last() == token_bytes(pre));
            assert(token_bytes(post).last() == tokens@[i as int].spec_bytes());
        }
        match parse_unknown_token(tokens[i]) {
            Some(r) => {
                let ghost old_ranges = ranges@;
                if i > 0 && ranges[i - 1].1 >= r.0 {
                    sorted = false;
                }
                ranges.push(r);
                proof {
                    let rs = ranges@;
                    assert(rs.drop_last() == old_ranges);
                    if sorted {
                        assert forall|j: int| 0 <= j < rs.len() - 1 implies (#[trigger] rs[j]).1 < rs[j + 1].0 by {
                            if j < old_ranges.len() - 1 {
                                assert(rs[j] == old_ranges[j] && rs[j + 1] == old_ranges[j + 1]);
                            } else {
                                assert(rs[j] == old_ranges[j]);
                            }
                        }
                        assert forall|j: int| 0 <= j < rs.len() implies (#[trigger] rs[j]).0 <= rs[j].1 by {
                            if j < old_ranges.len() {
                                assert(rs[j] == old_ranges[j]);
                            }
                        }
                    } else {
                        if ranges_sorted(rs) {
                            if i > 0 {
                                assert(rs[i - 1] == old_ranges[i - 1]);
                            }
                            assert forall|j: int| 0 <= j < old_ranges.len() - 1 implies (#[trigger] old_ranges[j]).1 < old_ranges[j + 1].0 by {
                                assert(rs[j] == old_ranges[j] && rs[j + 1] == old_ranges[j + 1]);
                            }
                            assert forall|j: int| 0 <= j < old_ranges.len() implies (#[trigger] old_ranges[j]).0 <= old_ranges[j].1 by {
                                assert(rs[j] == old_ranges[j]);
                            }
                        }
                    }
                }
            },
            None => {
                proof {
                    lemma_ranges_of_tokens_prefix_none(token_bytes(tokens@), i as int + 1);
                    assert(token_bytes(tokens@).subrange(0, i + 1) == token_bytes(post));
                }
                return None;
            },
        }
        i = i + 1;
    }
    proof {
        assert(tokens@.subrange(0, i as int) == tokens@);
    }
    if sorted { Some(ranges) } else { None }
}

/// A prefix of tokens that fails to read makes the whole list fail.
proof fn lemma_ranges_of_tokens_prefix_none(ts: Seq<Seq<u8>>, n: int)
    requires
        0 <= n <= ts.len(),
        ranges_of_tokens(ts.subrange(0, n)) is None,
    ensures
        ranges_of_tokens(ts) is None,
    decreases ts.len(),
{
    if n < ts.len() {
        assert(ts.drop_last().subrange(0, n) == ts.subrange(0, n));
        lemma_ranges_of_tokens_prefix_none(ts.drop_last(), n);
    } else {
        assert(ts.subrange(0, n) == ts);
    }
}

/// Covering a position by a prefix of the ranges never exceeds covering it by all of them.
pub proof fn lemma_covers_prefix(rs: Seq<(usize, usize)>, n: int, p: int)
    requires
        0 <= n <= rs.len(),
    ensures
        covers(rs.subrange(0, n), p) <= covers(rs, p),
    decreases rs.len(),
{
    if n < rs.len() {
        assert(rs.drop_last().subrange(0, n) == rs.subrange(0, n));
        lemma_covers_prefix(rs.drop_last(), n, p);
    } else {
        assert(rs.subrange(0, n) == rs);
    }
}

/// Adds one to `counts[p]` for every range that holds `p`.
pub fn add_unknowns(counts: &mut Vec<u32>, ranges: &Vec<(usize, usize)>)
    requires
        forall|i: int| 0 <= i < ranges@.len() ==> (#[trigger] ranges@[i]).1 < old(counts)@.len(),
        forall|p: int| 0 <= p < old(counts)@.len() ==> #[trigger] old(counts)@[p] + covers(ranges@, p) <= u32::MAX,
    ensures
        final(counts)@.len() == old(counts)@.len(),
        forall|p: int| 0 <= p < final(counts)@.len() ==> #[trigger] final(counts)@[p] == old(counts)@[p] + covers(ranges@, p),
{
    let ghost rs = ranges@;
    let ghost base = counts@;
    let mut r: usize = 0;
    while r < ranges.len()
        invariant
            r <= rs.len(),
            rs == ranges@,
            counts@.len() == base.len(),
            forall|i: int| 0 <= i < rs.len() ==> (#[trigger] rs[i]).1 < base.len(),
            forall|p: int| 0 <= p < base.len() ==> #[trigger] base[p] + covers(rs, p) <= u32::MAX,
            forall|p: int| 0 <= p < base.len() ==> #[trigger] counts@[p] == base[p] + covers(rs.subrange(0, r as int), p),
        decreases rs.len() - r,
    {
        let (start, end) = ranges[r];
        let ghost pre = rs.subrange(0, r as int);
        let ghost post = rs.subrange(0, r + 1);
        proof {
            assert(post.drop_last() == pre);
            assert(post.last() == rs[r as int]);
        }
        let n: usize = counts.len();
        let mut q: usize = start;
        while q <= end
            invariant
                n == counts@.len(),
                rs == ranges@,
                r < rs.len(),
                rs[r as int] == (start, end),
                end < base.len(),
                start <= q,
                q <= end + 1 || q == start,
                counts@.len() == base.len(),
                pre == rs.subrange(0, r as int),
                post == rs.subrange(0, r + 1),
                post.drop_last() == pre,
                post.last() == rs[r as int],
                forall|p: int| 0 <= p < base.len() ==> #[trigger] base[p] + covers(rs, p) <= u32::MAX,
                forall|p: int| 0 <= p < base.len() ==> #[trigger] counts@[p] == base[p] + covers(pre, p)
                    + if start <= p < q { 1nat } else { 0nat },
            decreases end + 1 - q,
        {
            proof {
                lemma_covers_prefix(rs, r + 1, q as int);
                assert(covers(post, q as int) == covers(pre, q as int) + 1);
            }
            counts.set(q, counts[q] + 1);
            q = q + 1;
        }
        proof {
            assert forall|p: int| 0 <= p < base.len() implies #[trigger] counts@[p] == base[p] + covers(post, p) by {}
        }
        r = r + 1;
    }
    proof {
        assert(rs.subrange(0, r as int) == rs);
    }
}

} // verus!
