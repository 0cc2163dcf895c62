use crate::decimal::{decimal_text, usize_text};
use crate::mutation::NucMutation;
use crate::nuc_code::NucCode;
use vstd::prelude::*;

verus! {

/// The symbol at `i` once the leading and trailing runs of gaps are read as
/// unknown (`N`): such gaps mostly stand for missing data that the alignment
/// turned into deletions.
pub open spec fn masked_code(s: Seq<NucCode>, i: int) -> NucCode {
    if (forall|j: int| 0 <= j <= i ==> #[trigger] s[j] == NucCode::GAP)
        || (forall|j: int| i <= j < s.len() ==> #[trigger] s[j] == NucCode::GAP) {
        NucCode::N
    } else {
        s[i]
    }
}

/// The sequence with its leading and trailing gaps read as `N`.
pub open spec fn masked(s: Seq<NucCode>) -> Seq<NucCode> {
    Seq::new(s.len(), |i: int| masked_code(s, i))
}

/// The mutations of the first `n` positions: each called symbol that differs
/// from the reference, with its 1-based position.
pub open spec fn mutations_upto(m: Seq<NucCode>, reference: Seq<NucCode>, n: int) -> Seq<NucMutation>
    decreases n,
{
    if n <= 0 {
        Seq::empty()
    } else {
        let pre = mutations_upto(m, reference, n - 1);
        if m[n - 1].is_called() && m[n - 1] != reference[n - 1] {
            pre.push(NucMutation { position: n as usize, to: m[n - 1] })
        } else {
            pre
        }
    }
}

/// The 1-based positions among the first `n` whose symbol is not called.
pub open spec fn unknowns_upto(m: Seq<NucCode>, n: int) -> Seq<usize>
    decreases n,
{
    if n <= 0 {
        Seq::empty()
    } else {
        let pre = unknowns_upto(m, n - 1);
        if !m[n - 1].is_called() { pre.push(n as usize) } else { pre }
    }
}

/// Replaces the leading and trailing runs of gaps by `N`.
fn mask_terminal_gaps(seq: &mut Vec<NucCode>)
    ensures
        final(seq)@ == masked(old(seq)@),
{
    let ghost s = seq@;
    let n = seq.len();
    let mut i: usize = 0;
    while i < n && seq[i] == NucCode::GAP
        invariant
            n == s.len() == seq@.len(),
            i <= n,
            forall|j: int| 0 <= j < i ==> #[trigger] s[j] == NucCode::GAP,
            forall|j: int| 0 <= j < i ==> #[trigger] seq@[j] == NucCode::N,
            forall|j: int| i <= j < n ==> #[trigger] seq@[j] == s[j],
        decreases n - i,
    {
        seq.set(i, NucCode::N);
        i = i + 1;
    }
    let lead = i;
    let mut t: usize = n;
    while t > lead && seq[t - 1] == NucCode::GAP
        invariant
            n == s.len() == seq@.len(),
            lead <= t <= n,
            lead == n || s[lead as int] != NucCode::GAP,
            forall|j: int| 0 <= j < lead ==> #[trigger] s[j] == NucCode::GAP,
            forall|j: int| t <= j < n ==> #[trigger] s[j] == NucCode::GAP,
            forall|j: int| 0 <= j < lead ==> #[trigger] seq@[j] == NucCode::N,
            forall|j: int| t <= j < n ==> #[trigger] seq@[j] == NucCode::N,
            forall|j: int| lead <= j < t ==> #[trigger] seq@[j] == s[j],
        decreases t,
    {
        seq.set(t - 1, NucCode::N);
        t = t - 1;
    }
    proof {
        assert forall|j: int| 0 <= j < n implies #[trigger] seq@[j] == masked_code(s, j) by {
            if j < lead {
                assert(forall|k: int| 0 <= k <= j ==> #[trigger] s[k] == NucCode::GAP);
            } else if j >= t {
                assert(forall|k: int| j <= k < s.len() ==> #[trigger] s[k] == NucCode::GAP);
            } else {
                assert(s[lead as int] != NucCode::GAP);
                if t < n {
                    assert(s[t - 1] != NucCode::GAP);
                } else {
                    assert(s[n - 1] != NucCode::GAP);
                }
                assert(!(forall|k: int| 0 <= k <= j ==> #[trigger] s[k] == NucCode::GAP));
                assert(!(forall|k: int| j <= k < s.len() ==> #[trigger] s[k] == NucCode::GAP));
            }
        }
        assert(seq@ =~= masked(s));
    }
}

fn is_called(c: NucCode) -> (r: bool)
    ensures
        r == c.is_called(),
{
    c == NucCode::A || c == NucCode::C || c == NucCode::G || c == NucCode::T || c == NucCode::GAP
}

/// The mutations of an aligned sequence against the reference: every position
/// whose symbol, once terminal gaps are masked, is a called symbol (a base or
/// a gap) that differs from the reference's.
pub fn find_nuc_mutations(aligned_seq: Vec<NucCode>, reference: &Vec<NucCode>) -> (r: Vec<NucMutation>)
    requires
        aligned_seq@.len() >= reference@.len(),
    ensures
        r@ == mutations_upto(masked(aligned_seq@), reference@, reference@.len() as int),
{
    let ghost orig = aligned_seq@;
    let mut seq = aligned_seq;
    mask_terminal_gaps(&mut seq);
    let mut mutations: Vec<NucMutation> = Vec::new();
    let mut i: usize = 0;
    while i < reference.len()
        invariant
            seq@ == masked(orig),
            seq@.len() >= reference@.len(),
            i <= reference@.len(),
            mutations@ == mutations_upto(seq@, reference@, i as int),
        decreases reference@.len() - i,
    {
        let code = seq[i];
        if is_called(code) && code != reference[i] {
            mutations.push(NucMutation { position: i + 1, to: code });
        }
        i = i + 1;
    }
    mutations
}

/// The 1-based positions of an aligned sequence whose symbol, once terminal
/// gaps are masked, is not a base or a gap.
pub fn find_nuc_unknowns(aligned_seq: Vec<NucCode>) -> (r: Vec<usize>)
    ensures
        r@ == unknowns_upto(masked(aligned_seq@), aligned_seq@.len() as int),
{
    let ghost orig = aligned_seq@;
    let mut seq = aligned_seq;
    mask_terminal_gaps(&mut seq);
    let mut positions: Vec<usize> = Vec::new();
    let mut i: usize = 0;
    while i < seq.len()
        invariant
            seq@ == masked(orig),
            i <= seq@.len(),
            positions@ == unknowns_upto(seq@, i as int),
        decreases seq@.len() - i,
    {
        if !is_called(seq[i]) {
            positions.push(i + 1);
        }
        i = i + 1;
    }
    positions
}

/// The text of each string.
pub open spec fn string_views(v: Seq<String>) -> Seq<Seq<char>> {
    v.map_values(|s: String| s@)
}

/// The texts that close a run of positions from `start` to `end`: the range
/// `start-end` where it holds at least three positions, else each position.
pub open spec fn run_texts(start: usize, end: usize) -> Seq<Seq<char>> {
    if end - start > 1 {
        seq![decimal_text(start as nat) + seq!['-'] + decimal_text(end as nat)]
    } else if end - start > 0 {
        seq![decimal_text(start as nat), decimal_text(end as nat)]
    } else {
        seq![decimal_text(start as nat)]
    }
}

/// The texts of the runs closed so far and the open run, after reading the
/// non-empty list `ps` from left to right: a position equal to the run's end
/// is skipped, one just after it extends the run, any other closes the run
/// and opens a new one.
pub open spec fn run_state(ps: Seq<usize>) -> (Seq<Seq<char>>, usize, usize)
    decreases ps.len(),
{
    if ps.len() <= 1 {
        (Seq::empty(), ps[0], ps[0])
    } else {
        let (out, start, end) = run_state(ps.drop_last());
        let p = ps.last();
        if p == end {
            (out, start, end)
        } else if p == end + 1 {
            (out, start, p)
        } else {
            (out + run_texts(start, end), p, p)
        }
    }
}

/// The positions written with runs of consecutive positions as ranges.
pub open spec fn compressed_positions(ps: Seq<usize>) -> Seq<Seq<char>> {
    if ps.len() == 0 {
        Seq::empty()
    } else {
        let (out, start, end) = run_state(ps);
        out + run_texts(start, end)
    }
}

/// The runs closed so far and the open run, read as `run_state` reads the list.
pub open spec fn run_list(ps: Seq<usize>) -> (Seq<(usize, usize)>, usize, usize)
    decreases ps.len(),
{
    if ps.len() <= 1 {
        (Seq::empty(), ps[0], ps[0])
    } else {
        let (out, start, end) = run_list(ps.drop_last());
        let p = ps.last();
        if p == end {
            (out, start, end)
        } else if p == end + 1 {
            (out, start, p)
        } else {
            (out.push((start, end)), p, p)
        }
    }
}

/// The maximal runs of consecutive positions of a non-empty list.
pub open spec fn runs(ps: Seq<usize>) -> Seq<(usize, usize)> {
    let (out, start, end) = run_list(ps);
    out.push((start, end))
}

/// The texts of a list of runs, in order.
pub open spec fn texts_of_runs(rs: Seq<(usize, usize)>) -> Seq<Seq<char>>
    decreases rs.len(),
{
    if rs.len() == 0 {
        Seq::empty()
    } else {
        texts_of_runs(rs.drop_last()) + run_texts(rs.last().0, rs.last().1)
    }
}

/// The positions `start..=end`.
pub open spec fn run_positions(start: usize, end: usize) -> Seq<usize> {
    Seq::new((end - start + 1) as nat, |i: int| (start + i) as usize)
}

/// The positions of a list of runs, in order.
pub open spec fn expand_runs(rs: Seq<(usize, usize)>) -> Seq<usize>
    decreases rs.len(),
{
    if rs.len() == 0 {
        Seq::empty()
    } else {
        expand_runs(rs.drop_last()) + run_positions(rs.last().0, rs.last().1)
    }
}

/// Whether the positions strictly increase.
pub open spec fn increasing(ps: Seq<usize>) -> bool {
    forall|i: int, j: int| 0 <= i < j < ps.len() ==> ps[i] < ps[j]
}

proof fn lemma_run_list(ps: Seq<usize>)
    requires
        ps.len() > 0,
        increasing(ps),
    ensures
        run_state(ps).0 == texts_of_runs(run_list(ps).0),
        run_state(ps).1 == run_list(ps).1,
        run_state(ps).2 == run_list(ps).2,
        run_list(ps).1 <= run_list(ps).2,
        run_list(ps).2 == ps.last(),
        expand_runs(run_list(ps).0) + run_positions(run_list(ps).1, run_list(ps).2) == ps,
    decreases ps.len(),
{
    if ps.len() == 1 {
        assert(run_positions(ps[0], ps[0]) =~= ps);
        assert(expand_runs(Seq::<(usize, usize)>::empty()) == Seq::<usize>::empty());
        assert(Seq::<usize>::empty() + run_positions(ps[0], ps[0]) =~= run_positions(ps[0], ps[0]));
    } else {
        let pre = ps.drop_last();
        assert(increasing(pre)) by {
            assert forall|i: int, j: int| 0 <= i < j < pre.len() implies pre[i] < pre[j] by {
                assert(pre[i] == ps[i] && pre[j] == ps[j]);
            }
        }
        lemma_run_list(pre);
        let (out, start, end) = run_list(pre);
        let p = ps.last();
        assert(pre.last() == ps[ps.len() - 2]);
        assert(end < p);
        if p == end + 1 {
            assert(run_positions(start, p) =~= run_positions(start, end).push(p));
            assert(expand_runs(out) + run_positions(start, p) =~= (expand_runs(out) + run_positions(start, end)).push(p));
            assert(pre.push(p) =~= ps);
        } else {
            let out2 = out.push((start, end));
            assert(out2.drop_last() == out);
            assert(texts_of_runs(out2) == texts_of_runs(out) + run_texts(start, end));
            assert(expand_runs(out2) == expand_runs(out) + run_positions(start, end));
            assert(run_positions(p, p) =~= seq![p]);
            assert(expand_runs(out2) + run_positions(p, p) =~= pre.push(p));
            assert(pre.push(p) =~= ps);
        }
    }
}

/// On strictly increasing positions, the texts are those of the maximal runs
/// of consecutive positions, and expanding the runs gives the positions back;
/// a run is written as `start-end` exactly where it holds three or more
/// positions (see `run_texts`).
pub proof fn lemma_compressed_positions_runs(ps: Seq<usize>)
    requires
        ps.len() > 0,
        increasing(ps),
    ensures
        compressed_positions(ps) == texts_of_runs(runs(ps)),
        expand_runs(runs(ps)) == ps,
        forall|k: int| 0 <= k < runs(ps).len() ==> (#[trigger] runs(ps)[k]).0 <= runs(ps)[k].1,
{
    lemma_run_list(ps);
    let (out, start, end) = run_list(ps);
    let rs = runs(ps);
    assert(rs.drop_last() == out);
    assert(texts_of_runs(rs) == texts_of_runs(out) + run_texts(start, end));
    assert(expand_runs(rs) == expand_runs(out) + run_positions(start, end));
    lemma_runs_ordered(ps);
}

proof fn lemma_runs_ordered(ps: Seq<usize>)
    requires
        ps.len() > 0,
        increasing(ps),
    ensures
        forall|k: int| 0 <= k < runs(ps).len() ==> (#[trigger] runs(ps)[k]).0 <= runs(ps)[k].1,
    decreases ps.len(),
{
    lemma_run_list(ps);
    if ps.len() > 1 {
        let pre = ps.drop_last();
        assert(increasing(pre)) by {
            assert forall|i: int, j: int| 0 <= i < j < pre.len() implies pre[i] < pre[j] by {
                assert(pre[i] == ps[i] && pre[j] == ps[j]);
            }
        }
        lemma_runs_ordered(pre);
        lemma_run_list(pre);
        let rs = runs(ps);
        let rp = runs(pre);
        assert forall|k: int| 0 <= k < rs.len() implies (#[trigger] rs[k]).0 <= rs[k].1 by {
            if k < rs.len() - 1 {
                if k < rp.len() {
                    assert(rs[k] == rp[k] || k == rp.len() - 1);
                }
            }
        }
    }
}

fn push_run(result: &mut Vec<String>, start: usize, end: usize)
    requires
        start <= end,
    ensures
        final(result)@.map_values(|s: String| s@) == old(result)@.map_values(|s: String| s@) + run_texts(start, end),
{
    let ghost before = string_views(result@);
    let ghost old_len: int = result@.len() as int;
    if end - start > 1 {
        let mut s = usize_text(start);
        proof {
            reveal_strlit("-");
        }
        s.append("-");
        let e = usize_text(end);
        s.append(e.as_str());
        proof {
            assert(s@ == decimal_text(start as nat) + seq!['-'] + decimal_text(end as nat));
        }
        result.push(s);
        proof {
            assert(string_views(result@)[old_len] == s@);
        }
    } else if end - start > 0 {
        let a = usize_text(start);
        let b = usize_text(end);
        result.push(a);
        result.push(b);
        proof {
            assert(string_views(result@)[old_len] == a@);
            assert(string_views(result@)[old_len as int + 1] == b@);
        }
    } else {
        let a = usize_text(start);
        result.push(a);
        proof {
            assert(string_views(result@)[old_len] == a@);
        }
    }
    proof {
        assert forall|k: int| 0 <= k < old_len implies string_views(result@)[k] == #[trigger] before[k] by {}
        assert(string_views(result@) =~= before + run_texts(start, end));
    }
}

/// Writes a list of positions with runs of consecutive positions as ranges:
/// `1,5,6,7,8,20` becomes `1`, `5-8`, `20`.
pub fn compress_positions_as_strings(positions: &Vec<usize>) -> (r: Vec<String>)
    ensures
        string_views(r@) == compressed_positions(positions@),
{
    if positions.len() == 0 {
        let r: Vec<String> = Vec::new();
        proof {
            assert(string_views(r@) =~= Seq::<Seq<char>>::empty());
        }
        return r;
    }
    let ghost ps = positions@;
    let mut result: Vec<String> = Vec::new();
    let mut range_start: usize = positions[0];
    let mut range_end: usize = range_start;
    proof {
        assert(string_views(result@) =~= Seq::<Seq<char>>::empty());
        assert(ps.subrange(0, 1).len() == 1);
    }
    let mut i: usize = 1;
    while i < positions.len()
        invariant
            ps == positions@,
            1 <= i <= ps.len(),
            range_start <= range_end,
            run_state(ps.subrange(0, i as int)) == (string_views(result@), range_start, range_end),
        decreases ps.len() - i,
    {
        let pos = positions[i];
        proof {
            assert(ps.subrange(0, i + 1).drop_last() == ps.subrange(0, i as int));
            assert(ps.subrange(0, i + 1).last() == pos);
        }
        if pos == range_end {
        } else if range_end < usize::MAX && pos == range_end + 1 {
            range_end = pos;
        } else {
            push_run(&mut result, range_start, range_end);
            range_start = pos;
            range_end = pos;
        }
        i = i + 1;
    }
    proof {
        assert(ps.subrange(0, i as int) == ps);
    }
    push_run(&mut result, range_start, range_end);
    result
}

} // verus!
