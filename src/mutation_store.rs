use crate::bi_dict::BiDict;
use crate::counter::{lemma_occurrences_no_duplicates, occurrences, Counter};
use crate::mutation::{lemma_mutation_key_round_trip, mutation_key, mutation_of_key, NucMutation};
use crate::unknowns::{
    add_unknowns, covers, in_range, lemma_covers_sorted, parse_unknown_ranges, ranges_of_tokens, ranges_sorted,
    token_bytes,
};
use vstd::prelude::*;

verus! {

/// Why a sequence could not be added to a [`MutationStore`].
#[derive(Clone, Copy, Debug, PartialEq, Eq, Structural)]
pub enum StoreError {
    /// A token of unknown positions is not a position or a `start-end` range,
    /// or the ranges are not in increasing order without overlap.
    MalformedUnknowns,
    /// The sequence lists a mutation twice, marks a mutated position unknown,
    /// or names the largest `usize` as a position.
    InconsistentEntry,
}

/// How often a mutation occurs in a set of sequences. The proportion of the
/// mutation is `count / denominator`, where the denominator counts the
/// requested sequences that are not unknown at the mutation's position.
#[derive(Clone, Copy, Debug, PartialEq, Eq, Structural)]
pub struct MutationCount {
    pub mutation: NucMutation,
    pub count: u32,
    pub denominator: u32,
}

struct InternalEntry {
    mutation_ids: Vec<u32>,
    unknowns: Vec<(usize, usize)>,
}

/// The mutations and unknown positions of every sequence of a dataset, with
/// mutations interned to dense ids.
pub struct MutationStore {
    data: Vec<InternalEntry>,
    mutation_dict: BiDict<u128>,
    max_position: usize,
}

/// Whether one of the counts is of the mutation `m`.
pub open spec fn has_mutation(counts: Seq<MutationCount>, m: NucMutation) -> bool {
    exists|j: int| 0 <= j < counts.len() && (#[trigger] counts[j]).mutation == m
}

/// An item that occurs is in the sequence.
proof fn lemma_occurrences_positive<T>(s: Seq<T>, x: T)
    requires
        occurrences(s, x) > 0,
    ensures
        s.contains(x),
    decreases s.len(),
{
    if s.last() != x {
        lemma_occurrences_positive(s.drop_last(), x);
        let k = choose|k: int| 0 <= k < s.drop_last().len() && s.drop_last()[k] == x;
        assert(s[k] == x);
    } else {
        assert(s[s.len() - 1] == x);
    }
}

/// The sum of `f` over the indices, repeats included.
pub open spec fn sum_over(ids: Seq<u32>, f: spec_fn(u32) -> nat) -> nat
    decreases ids.len(),
{
    if ids.len() == 0 {
        0
    } else {
        sum_over(ids.drop_last(), f) + f(ids.last())
    }
}

proof fn lemma_sum_over_remove(ids: Seq<u32>, f: spec_fn(u32) -> nat, i: int)
    requires
        0 <= i < ids.len(),
    ensures
        sum_over(ids, f) == sum_over(ids.remove(i), f) + f(ids[i]),
    decreases ids.len(),
{
    if i == ids.len() - 1 {
        assert(ids.remove(i) =~= ids.drop_last());
    } else {
        let r = ids.remove(i);
        assert(r.drop_last() =~= ids.drop_last().remove(i));
        assert(r.last() == ids.last());
        lemma_sum_over_remove(ids.drop_last(), f, i);
    }
}

/// A sum over the indices does not depend on their order.
pub proof fn lemma_sum_over_permutation(a: Seq<u32>, b: Seq<u32>, f: spec_fn(u32) -> nat)
    requires
        a.to_multiset() == b.to_multiset(),
    ensures
        sum_over(a, f) == sum_over(b, f),
    decreases a.len(),
{
    broadcast use vstd::seq_lib::group_to_multiset_ensures;
    if a.len() == 0 {
        assert(b.to_multiset().len() == 0);
    } else {
        let x = a.last();
        let pre = a.drop_last();
        assert(pre.push(x) =~= a);
        assert(a.to_multiset() =~= pre.to_multiset().insert(x));
        assert(a.to_multiset().count(x) > 0);
        assert(b.contains(x));
        let i = choose|i: int| 0 <= i < b.len() && b[i] == x;
        let rest = b.remove(i);
        assert(rest.to_multiset() =~= b.to_multiset().remove(x));
        assert(pre.to_multiset() =~= a.to_multiset().remove(x));
        lemma_sum_over_permutation(pre, rest, f);
        lemma_sum_over_remove(b, f, i);
    }
}

/// Whether a sequence's mutations and unknown ranges may stand together: no
/// mutation twice, no mutation at an unknown position, no position at the
/// largest `usize`.
pub open spec fn entry_consistent(ms: Seq<NucMutation>, rs: Seq<(usize, usize)>) -> bool {
    &&& ms.no_duplicates()
    &&& forall|i: int| 0 <= i < ms.len() ==> (#[trigger] ms[i]).position < usize::MAX
    &&& forall|i: int| 0 <= i < rs.len() ==> (#[trigger] rs[i]).1 < usize::MAX
    &&& forall|i: int, j: int| 0 <= i < ms.len() && 0 <= j < rs.len()
        ==> !in_range(#[trigger] rs[j], (#[trigger] ms[i]).position as int)
}

impl MutationStore {
    /// The number of sequences.
    pub closed spec fn len(&self) -> nat {
        self.data@.len()
    }

    /// The number of distinct mutations seen so far, which is also the next id.
    pub closed spec fn id_count(&self) -> nat {
        self.mutation_dict@.len()
    }

    /// The mutation that has the id `id`.
    pub closed spec fn mutation_of_id(&self, id: u32) -> NucMutation {
        mutation_of_key(self.mutation_dict@[id as int])
    }

    /// The mutations of sequence `i`, in the order in which they were added.
    pub closed spec fn mutations_of(&self, i: int) -> Seq<NucMutation> {
        self.data@[i].mutation_ids@.map_values(|id: u32| self.mutation_of_id(id))
    }

    /// The unknown ranges of sequence `i`.
    pub closed spec fn unknowns_of(&self, i: int) -> Seq<(usize, usize)> {
        self.data@[i].unknowns@
    }

    /// Whether position `p` of sequence `i` is unknown.
    pub open spec fn is_unknown(&self, i: int, p: int) -> bool {
        exists|j: int| 0 <= j < self.unknowns_of(i).len() && #[trigger] in_range(self.unknowns_of(i)[j], p)
    }

    /// How often the requested sequences carry `m`: the sum, over the requested
    /// indices (repeats included), of its occurrences in that sequence's mutations.
    pub open spec fn carrier_count(&self, ids: Seq<u32>, m: NucMutation) -> nat
        decreases ids.len(),
    {
        if ids.len() == 0 {
            0
        } else {
            self.carrier_count(ids.drop_last(), m) + occurrences(self.mutations_of(ids.last() as int), m)
        }
    }

    /// How many of the requested indices (repeats included) name a sequence
    /// that is unknown at position `p`.
    pub open spec fn unknown_count(&self, ids: Seq<u32>, p: int) -> nat
        decreases ids.len(),
    {
        if ids.len() == 0 {
            0
        } else {
            self.unknown_count(ids.drop_last(), p) + if self.is_unknown(ids.last() as int, p) { 1nat } else { 0nat }
        }
    }

    /// How many of the requested sequences carry the mutation with id `id`.
    pub closed spec fn carriers(&self, ids: Seq<u32>, id: u32) -> nat
        decreases ids.len(),
    {
        if ids.len() == 0 {
            0
        } else {
            self.carriers(ids.drop_last(), id) + occurrences(self.data@[ids.last() as int].mutation_ids@, id)
        }
    }

    /// How many of the requested sequences are unknown at position `p`.
    pub closed spec fn unknown_at(&self, ids: Seq<u32>, p: int) -> nat
        decreases ids.len(),
    {
        if ids.len() == 0 {
            0
        } else {
            self.unknown_at(ids.drop_last(), p) + covers(self.data@[ids.last() as int].unknowns@, p)
        }
    }

    /// The ids below `n` of the mutations that the requested sequences carry, in increasing order.
    pub closed spec fn observed_below(&self, ids: Seq<u32>, n: nat) -> Seq<u32>
        decreases n,
    {
        if n == 0 {
            Seq::empty()
        } else {
            let s = self.observed_below(ids, (n - 1) as nat);
            if self.carriers(ids, (n - 1) as u32) > 0 { s.push((n - 1) as u32) } else { s }
        }
    }

    /// The ids of the mutations that the requested sequences carry, in increasing order.
    pub open spec fn observed(&self, ids: Seq<u32>) -> Seq<u32> {
        self.observed_below(ids, self.id_count())
    }

    /// The count that `count_mutations` gives for the mutation with id `id`.
    pub open spec fn count_of(&self, ids: Seq<u32>, id: u32) -> MutationCount {
        let m = self.mutation_of_id(id);
        MutationCount {
            mutation: m,
            count: self.carriers(ids, id) as u32,
            denominator: (ids.len() - self.unknown_at(ids, m.position as int)) as u32,
        }
    }

    /// The counts that `count_mutations` gives for the requested sequences.
    pub open spec fn counts_spec(&self, ids: Seq<u32>) -> Seq<MutationCount> {
        Seq::new(self.observed(ids).len(), |j: int| self.count_of(ids, self.observed(ids)[j]))
    }

    pub closed spec fn wf(&self) -> bool {
        &&& self.dict_wf()
        &&& forall|i: int| 0 <= i < self.data@.len() ==> self.entry_wf(#[trigger] self.data@[i])
    }

    closed spec fn entry_wf(&self, e: InternalEntry) -> bool {
        &&& e.mutation_ids@.no_duplicates()
        &&& forall|k: int| 0 <= k < e.mutation_ids@.len() ==> (#[trigger] e.mutation_ids@[k]) < self.mutation_dict@.len()
        &&& ranges_sorted(e.unknowns@)
        &&& forall|k: int| 0 <= k < e.unknowns@.len() ==> (#[trigger] e.unknowns@[k]).1 <= self.max_position
        &&& forall|k: int, j: int| 0 <= k < e.mutation_ids@.len() && 0 <= j < e.unknowns@.len()
            ==> !in_range(#[trigger] e.unknowns@[j], self.mutation_of_id(#[trigger] e.mutation_ids@[k]).position as int)
    }

    pub fn with_capacity(capacity: u32) -> (r: Self)
        ensures
            r.wf(),
            r.len() == 0,
            r.id_count() == 0,
    {
        MutationStore {
            data: Vec::with_capacity(capacity as usize),
            mutation_dict: BiDict::new(),
            max_position: 0,
        }
    }

    /// The number of sequences.
    pub fn number_of_sequences(&self) -> (r: usize)
        ensures
            r == self.len(),
    {
        self.data.len()
    }

    /// The number of distinct mutations seen so far.
    pub fn number_of_mutations(&self) -> (r: usize)
        requires
            self.wf(),
        ensures
            r == self.id_count(),
    {
        self.mutation_dict.len()
    }
}

/// Checks that a sequence's mutations and unknown ranges may stand together.
fn entry_is_consistent(mutations: &Vec<NucMutation>, ranges: &Vec<(usize, usize)>) -> (r: bool)
    ensures
        r == entry_consistent(mutations@, ranges@),
{
    let ghost ms = mutations@;
    let ghost rs = ranges@;
    // Check that the entry is consistent.
    let mut k: usize = 0;
    while k < ranges.len()
        invariant
            k <= rs.len(),
            rs == ranges@,
            forall|j: int| 0 <= j < k ==> (#[trigger] rs[j]).1 < usize::MAX,
        decreases rs.len() - k,
    {
        if ranges[k].1 == usize::MAX {
            return false;
        }
        k = k + 1;
    }
    let mut i: usize = 0;
    while i < mutations.len()
        invariant
            i <= ms.len(),
            ms == mutations@,
            rs == ranges@,
            forall|j: int| 0 <= j < rs.len() ==> (#[trigger] rs[j]).1 < usize::MAX,
            ms.subrange(0, i as int).no_duplicates(),
            forall|a: int| 0 <= a < i ==> (#[trigger] ms[a]).position < usize::MAX,
            forall|a: int, j: int| 0 <= a < i && 0 <= j < rs.len()
                ==> !in_range(#[trigger] rs[j], (#[trigger] ms[a]).position as int),
        decreases ms.len() - i,
    {
        let m = mutations[i];
        if m.position == usize::MAX {
            proof {
                assert(ms[i as int].position == usize::MAX);
            }
            return false;
        }
        let mut j: usize = 0;
        while j < i
            invariant
                j <= i < ms.len(),
                ms == mutations@,
                rs == ranges@,
                m == ms[i as int],
                forall|a: int| 0 <= a < j ==> ms[a] != m,
            decreases i - j,
        {
            if mutations[j] == m {
                proof {
                    assert(ms[j as int] == ms[i as int]);
                    assert(!ms.no_duplicates());
                }
                return false;
            }
            j = j + 1;
        }
        let mut k: usize = 0;
        while k < ranges.len()
            invariant
                k <= rs.len(),
                rs == ranges@,
                ms == mutations@,
                i < ms.len(),
                m == ms[i as int],
                forall|b: int| 0 <= b < k ==> !in_range(#[trigger] rs[b], m.position as int),
            decreases rs.len() - k,
        {
            if ranges[k].0 <= m.position && m.position <= ranges[k].1 {
                proof {
                    assert(in_range(rs[k as int], ms[i as int].position as int));
                }
                return false;
            }
            k = k + 1;
        }
        proof {
            let pre = ms.subrange(0, i as int);
            let post = ms.subrange(0, i + 1);
            assert forall|a: int, b: int| 0 <= a < post.len() && 0 <= b < post.len() && a != b implies post[a] != post[b] by {
                if a < i && b < i {
                    assert(pre[a] == post[a] && pre[b] == post[b]);
                }
            }
        }
        i = i + 1;
    }
    proof {
        assert(ms.subrange(0, i as int) == ms);
    }
    true
}

impl MutationStore {
    /// Appends one sequence: its mutations, interned to ids, and its unknown
    /// positions, given as compressed tokens (`"17"` or `"5-8"`) in increasing
    /// order. On an error the store is left as it was.
    pub fn push(&mut self, mutations: &Vec<NucMutation>, unknowns_compressed_positions: &Vec<&str>) -> (r: Result<(), StoreError>)
        requires
            old(self).wf(),
            old(self).id_count() + mutations@.len() <= u32::MAX,
        ensures
            final(self).wf(),
            r == Err::<(), StoreError>(StoreError::MalformedUnknowns) <==> !(ranges_of_tokens(token_bytes(unknowns_compressed_positions@)) matches Some(rs) && ranges_sorted(rs)),
            r == Err::<(), StoreError>(StoreError::InconsistentEntry) <==> (ranges_of_tokens(token_bytes(unknowns_compressed_positions@)) matches Some(rs)
                && ranges_sorted(rs) && !entry_consistent(mutations@, rs)),
            r is Err ==> *final(self) == *old(self),
            r is Ok ==> {
                &&& final(self).len() == old(self).len() + 1
                &&& final(self).mutations_of(old(self).len() as int) == mutations@
                &&& ranges_of_tokens(token_bytes(unknowns_compressed_positions@)) == Some(final(self).unknowns_of(old(self).len() as int))
                &&& forall|i: int| 0 <= i < old(self).len() ==> #[trigger] final(self).mutations_of(i) == old(self).mutations_of(i)
                    && final(self).unknowns_of(i) == old(self).unknowns_of(i)
                &&& final(self).id_count() <= old(self).id_count() + mutations@.len()
                &&& forall|id: u32| id < old(self).id_count() ==> #[trigger] final(self).mutation_of_id(id) == old(self).mutation_of_id(id)
            },
    {
        let ranges = match parse_unknown_ranges(unknowns_compressed_positions) {
            Some(v) => v,
            None => return Err(StoreError::MalformedUnknowns),
        };
        let ghost ms = mutations@;
        let ghost rs = ranges@;
        if !entry_is_consistent(mutations, &ranges) {
            return Err(StoreError::InconsistentEntry);
        }
        self.add_entry(mutations, ranges);
        Ok(())
    }

    /// The dictionary of `self` keeps that of `prev` as its prefix, and the
    /// largest position has not shrunk.
    closed spec fn extends(&self, prev: &Self) -> bool {
        &&& self.mutation_dict@.len() >= prev.mutation_dict@.len()
        &&& forall|id: int| 0 <= id < prev.mutation_dict@.len() ==> #[trigger] self.mutation_dict@[id] == prev.mutation_dict@[id]
        &&& self.max_position >= prev.max_position
    }

    /// The dictionary part of well-formedness.
    closed spec fn dict_wf(&self) -> bool {
        &&& self.mutation_dict.wf()
        &&& self.max_position < usize::MAX
        &&& forall|id: int| 0 <= id < self.mutation_dict@.len()
            ==> (#[trigger] self.mutation_dict@[id]) / 32 <= self.max_position
        &&& forall|id: int| 0 <= id < self.mutation_dict@.len()
            ==> mutation_key(mutation_of_key(#[trigger] self.mutation_dict@[id])) == self.mutation_dict@[id]
    }

    proof fn lemma_entry_wf_extends(&self, prev: &Self, e: InternalEntry)
        requires
            self.extends(prev),
            prev.entry_wf(e),
        ensures
            self.entry_wf(e),
    {
        assert forall|k: int, j: int| 0 <= k < e.mutation_ids@.len() && 0 <= j < e.unknowns@.len()
            implies !in_range(#[trigger] e.unknowns@[j], self.mutation_of_id(#[trigger] e.mutation_ids@[k]).position as int) by {
            assert(self.mutation_of_id(e.mutation_ids@[k]) == prev.mutation_of_id(e.mutation_ids@[k]));
        }
    }

    /// Interns each mutation and returns their ids, in order.
    fn intern_mutations(&mut self, mutations: &Vec<NucMutation>) -> (ids: Vec<u32>)
        requires
            old(self).dict_wf(),
            old(self).id_count() + mutations@.len() <= u32::MAX,
            forall|i: int| 0 <= i < mutations@.len() ==> (#[trigger] mutations@[i]).position < usize::MAX,
        ensures
            final(self).dict_wf(),
            final(self).extends(old(self)),
            final(self).data == old(self).data,
            final(self).id_count() <= old(self).id_count() + mutations@.len(),
            ids@.len() == mutations@.len(),
            forall|k: int| 0 <= k < ids@.len() ==> (#[trigger] ids@[k]) < final(self).id_count()
                && final(self).mutation_dict@[ids@[k] as int] == mutation_key(mutations@[k]),
    {
        let ghost ms = mutations@;
        let ghost old_store = *self;
        let mut ids: Vec<u32> = Vec::with_capacity(mutations.len());
        let mut i: usize = 0;
        while i < mutations.len()
            invariant
                i <= ms.len(),
                ms == mutations@,
                forall|a: int| 0 <= a < ms.len() ==> (#[trigger] ms[a]).position < usize::MAX,
                old_store.id_count() + ms.len() <= u32::MAX,
                self.data == old_store.data,
                self.dict_wf(),
                self.extends(&old_store),
                self.mutation_dict@.len() <= old_store.mutation_dict@.len() + i,
                ids@.len() == i,
                forall|k: int| 0 <= k < i ==> (#[trigger] ids@[k]) < self.mutation_dict@.len()
                    && self.mutation_dict@[ids@[k] as int] == mutation_key(ms[k]),
            decreases ms.len() - i,
        {
            let m = mutations[i];
            let key = m.key();
            proof {
                lemma_mutation_key_round_trip(m);
                assert(ms[i as int] == m);
                assert(key / 32 == m.position);
            }
            let id = self.mutation_dict.value_to_id(key);
            ids.push(id);
            if m.position > self.max_position {
                self.max_position = m.position;
            }
            i = i + 1;
        }
        ids
    }

    /// Interns the mutations of a consistent entry and appends the entry.
    #[verifier::rlimit(100)]
    fn add_entry(&mut self, mutations: &Vec<NucMutation>, ranges: Vec<(usize, usize)>)
        requires
            old(self).wf(),
            old(self).id_count() + mutations@.len() <= u32::MAX,
            entry_consistent(mutations@, ranges@),
            ranges_sorted(ranges@),
        ensures
            final(self).wf(),
            final(self).len() == old(self).len() + 1,
            final(self).mutations_of(old(self).len() as int) == mutations@,
            final(self).unknowns_of(old(self).len() as int) == ranges@,
            forall|i: int| 0 <= i < old(self).len() ==> #[trigger] final(self).mutations_of(i) == old(self).mutations_of(i)
                && final(self).unknowns_of(i) == old(self).unknowns_of(i),
            final(self).id_count() <= old(self).id_count() + mutations@.len(),
            forall|id: u32| id < old(self).id_count() ==> #[trigger] final(self).mutation_of_id(id) == old(self).mutation_of_id(id),
    {
        let ghost ms = mutations@;
        let ghost rs = ranges@;
        proof {
            assert forall|i: int| 0 <= i < ms.len() implies (#[trigger] ms[i]).position < usize::MAX by {}
        }
        let ghost old_store = *self;
        let ids = self.intern_mutations(mutations);
        let ghost dict_after = self.mutation_dict;
        let mut k: usize = 0;
        while k < ranges.len()
            invariant
                k <= rs.len(),
                rs == ranges@,
                forall|j: int| 0 <= j < rs.len() ==> (#[trigger] rs[j]).1 < usize::MAX,
                self.mutation_dict == dict_after,
                self.max_position < usize::MAX,
                self.max_position >= old_store.max_position,
                self.data == old_store.data,
                forall|id: int| 0 <= id < self.mutation_dict@.len() ==> (#[trigger] self.mutation_dict@[id]) / 32 <= self.max_position,
                forall|j: int| 0 <= j < k ==> (#[trigger] rs[j]).1 <= self.max_position,
            decreases rs.len() - k,
        {
            if ranges[k].1 > self.max_position {
                self.max_position = ranges[k].1;
            }
            k = k + 1;
        }
        proof {
            let d = self.mutation_dict@;
            assert(ids@.no_duplicates()) by {
                assert forall|a: int, b: int| 0 <= a < ids@.len() && 0 <= b < ids@.len() && a != b implies ids@[a] != ids@[b] by {
                    lemma_mutation_key_round_trip(ms[a]);
                    lemma_mutation_key_round_trip(ms[b]);
                }
            }
            assert forall|e: int| 0 <= e < old_store.data@.len() implies self.entry_wf(#[trigger] self.data@[e]) by {
                self.lemma_entry_wf_extends(&old_store, self.data@[e]);
            }
        }
        let entry = InternalEntry { mutation_ids: ids, unknowns: ranges };
        proof {
            assert forall|k: int, j: int| 0 <= k < entry.mutation_ids@.len() && 0 <= j < entry.unknowns@.len()
                implies !in_range(#[trigger] entry.unknowns@[j], self.mutation_of_id(#[trigger] entry.mutation_ids@[k]).position as int) by {
                lemma_mutation_key_round_trip(ms[k]);
                assert(self.mutation_of_id(entry.mutation_ids@[k]) == ms[k]);
            }
            assert(self.entry_wf(entry));
        }
        self.data.push(entry);
        proof {
            let n = old_store.data@.len() as int;
            assert(self.data@[n] == entry);
            assert forall|e: int| 0 <= e < self.data@.len() implies self.entry_wf(#[trigger] self.data@[e]) by {
                if e < n {
                    assert(self.data@[e] == old_store.data@[e]);
                }
            }
            assert(self.mutations_of(n) == ms) by {
                assert forall|k: int| 0 <= k < ms.len() implies #[trigger] self.mutations_of(n)[k] == ms[k] by {
                    lemma_mutation_key_round_trip(ms[k]);
                }
            }
            assert forall|e: int| 0 <= e < old_store.len() implies #[trigger] self.mutations_of(e) == old_store.mutations_of(e)
                && self.unknowns_of(e) == old_store.unknowns_of(e) by {
                assert(self.data@[e] == old_store.data@[e]);
                let en = self.data@[e];
                assert(old_store.entry_wf(en));
                assert(self.mutations_of(e) =~= old_store.mutations_of(e));
            }
        }
    }

    /// A sequence of the store carries a mutation at most once, and is then
    /// not unknown at its position.
    proof fn lemma_entry_counts(&self, i: int, id: u32)
        requires
            self.wf(),
            0 <= i < self.len(),
            id < self.id_count(),
        ensures
            occurrences(self.data@[i].mutation_ids@, id) <= 1,
            covers(self.data@[i].unknowns@, self.mutation_of_id(id).position as int) <= 1,
            occurrences(self.data@[i].mutation_ids@, id)
                + covers(self.data@[i].unknowns@, self.mutation_of_id(id).position as int) <= 1,
    {
        let e = self.data@[i];
        assert(self.entry_wf(e));
        let p = self.mutation_of_id(id).position as int;
        lemma_occurrences_no_duplicates(e.mutation_ids@, id);
        lemma_covers_sorted(e.unknowns@, p);
        if occurrences(e.mutation_ids@, id) == 1 {
            let k = choose|k: int| 0 <= k < e.mutation_ids@.len() && e.mutation_ids@[k] == id;
            if covers(e.unknowns@, p) == 1 {
                let j = choose|j: int| 0 <= j < e.unknowns@.len() && #[trigger] in_range(e.unknowns@[j], p);
                assert(!in_range(e.unknowns@[j], self.mutation_of_id(e.mutation_ids@[k]).position as int));
            }
        }
    }

    /// Among the requested sequences, those that carry a mutation and those
    /// that are unknown at its position are never more than all of them.
    pub proof fn lemma_carriers_bounded(&self, ids: Seq<u32>, id: u32)
        requires
            self.wf(),
            id < self.id_count(),
            forall|k: int| 0 <= k < ids.len() ==> (#[trigger] ids[k]) < self.len(),
        ensures
            self.carriers(ids, id) + self.unknown_at(ids, self.mutation_of_id(id).position as int) <= ids.len(),
        decreases ids.len(),
    {
        if ids.len() > 0 {
            let pre = ids.drop_last();
            assert forall|k: int| 0 <= k < pre.len() implies (#[trigger] pre[k]) < self.len() by {
                assert(pre[k] == ids[k]);
            }
            self.lemma_carriers_bounded(pre, id);
            self.lemma_entry_counts(ids.last() as int, id);
        }
    }

    /// Every requested sequence is unknown at a position at most once.
    proof fn lemma_unknown_at_bounded(&self, ids: Seq<u32>, p: int)
        requires
            self.wf(),
            forall|k: int| 0 <= k < ids.len() ==> (#[trigger] ids[k]) < self.len(),
        ensures
            self.unknown_at(ids, p) <= ids.len(),
        decreases ids.len(),
    {
        if ids.len() > 0 {
            let pre = ids.drop_last();
            assert forall|k: int| 0 <= k < pre.len() implies (#[trigger] pre[k]) < self.len() by {
                assert(pre[k] == ids[k]);
            }
            self.lemma_unknown_at_bounded(pre, p);
            assert(self.entry_wf(self.data@[ids.last() as int]));
            lemma_covers_sorted(self.data@[ids.last() as int].unknowns@, p);
        }
    }

    /// Every requested sequence carries a mutation at most once.
    proof fn lemma_carriers_at_most(&self, ids: Seq<u32>, id: u32)
        requires
            self.wf(),
            forall|k: int| 0 <= k < ids.len() ==> (#[trigger] ids[k]) < self.len(),
        ensures
            self.carriers(ids, id) <= ids.len(),
        decreases ids.len(),
    {
        if ids.len() > 0 {
            let pre = ids.drop_last();
            assert forall|k: int| 0 <= k < pre.len() implies (#[trigger] pre[k]) < self.len() by {
                assert(pre[k] == ids[k]);
            }
            self.lemma_carriers_at_most(pre, id);
            assert(self.entry_wf(self.data@[ids.last() as int]));
            lemma_occurrences_no_duplicates(self.data@[ids.last() as int].mutation_ids@, id);
        }
    }

    /// Every observed id is below the bound and carried at least once.
    proof fn lemma_observed_below(&self, ids: Seq<u32>, n: nat)
        requires
            n <= u32::MAX + 1,
        ensures
            forall|j: int| 0 <= j < self.observed_below(ids, n).len() ==> {
                let id = #[trigger] self.observed_below(ids, n)[j];
                id < n && self.carriers(ids, id) > 0
            },
            forall|id: u32| id < n && self.carriers(ids, id) > 0 ==> #[trigger] self.observed_below(ids, n).contains(id),
            ids.len() == 0 ==> self.observed_below(ids, n).len() == 0,
            forall|j: int, k: int| 0 <= j < k < self.observed_below(ids, n).len()
                ==> self.observed_below(ids, n)[j] < self.observed_below(ids, n)[k],
        decreases n,
    {
        if n > 0 {
            self.lemma_observed_below(ids, (n - 1) as nat);
            let s = self.observed_below(ids, (n - 1) as nat);
            let t = self.observed_below(ids, n);
            if self.carriers(ids, (n - 1) as u32) > 0 {
                assert(t == s.push((n - 1) as u32));
                assert forall|id: u32| id < n && self.carriers(ids, id) > 0 implies #[trigger] t.contains(id) by {
                    if id < n - 1 {
                        assert(s.contains(id));
                        let k = choose|k: int| 0 <= k < s.len() && s[k] == id;
                        assert(t[k] == id);
                    } else {
                        assert(t[s.len() as int] == id);
                    }
                }
                assert forall|j: int| 0 <= j < t.len() implies {
                    let id = #[trigger] t[j];
                    id < n && self.carriers(ids, id) > 0
                } by {
                    if j < s.len() {
                        assert(t[j] == s[j]);
                    }
                }
                assert forall|j: int, k: int| 0 <= j < k < t.len() implies t[j] < t[k] by {
                    assert(t[j] == s[j]);
                    if k < s.len() {
                        assert(t[k] == s[k]);
                    } else {
                        assert(s[j] < n - 1);
                    }
                }
            } else {
                assert forall|id: u32| id < n && self.carriers(ids, id) > 0 implies #[trigger] t.contains(id) by {
                    assert(id != n - 1);
                    assert(s.contains(id));
                }
            }
        }
    }

    /// Distinct ids name distinct mutations.
    pub proof fn lemma_mutation_of_id_injective(&self, a: u32, b: u32)
        requires
            self.wf(),
            a < self.id_count(),
            b < self.id_count(),
            self.mutation_of_id(a) == self.mutation_of_id(b),
        ensures
            a == b,
    {
        assert(mutation_key(mutation_of_key(self.mutation_dict@[a as int])) == self.mutation_dict@[a as int]);
        assert(mutation_key(mutation_of_key(self.mutation_dict@[b as int])) == self.mutation_dict@[b as int]);
        self.mutation_dict.lemma_ids_identify_values(a as int, b as int);
    }

    /// Counting ids in a list counts their mutations in the list's mutations.
    proof fn lemma_occurrences_of_ids(&self, s: Seq<u32>, id: u32)
        requires
            self.wf(),
            id < self.id_count(),
            forall|k: int| 0 <= k < s.len() ==> (#[trigger] s[k]) < self.id_count(),
        ensures
            occurrences(s, id) == occurrences(s.map_values(|x: u32| self.mutation_of_id(x)), self.mutation_of_id(id)),
        decreases s.len(),
    {
        if s.len() > 0 {
            let pre = s.drop_last();
            assert forall|k: int| 0 <= k < pre.len() implies (#[trigger] pre[k]) < self.id_count() by {
                assert(pre[k] == s[k]);
            }
            self.lemma_occurrences_of_ids(pre, id);
            let ms = s.map_values(|x: u32| self.mutation_of_id(x));
            assert(ms.drop_last() =~= pre.map_values(|x: u32| self.mutation_of_id(x)));
            if s.last() != id && self.mutation_of_id(s.last()) == self.mutation_of_id(id) {
                self.lemma_mutation_of_id_injective(s.last(), id);
            }
        }
    }

    /// A sequence that carries `m` carries it through one of its ids.
    proof fn lemma_carried_has_id(&self, i: int, m: NucMutation) -> (id: u32)
        requires
            self.wf(),
            0 <= i < self.len(),
            occurrences(self.mutations_of(i), m) > 0,
        ensures
            id < self.id_count(),
            self.mutation_of_id(id) == m,
            occurrences(self.data@[i].mutation_ids@, id) > 0,
    {
        let e = self.data@[i];
        assert(self.entry_wf(e));
        let ms = self.mutations_of(i);
        lemma_occurrences_positive(ms, m);
        let k = choose|k: int| 0 <= k < ms.len() && ms[k] == m;
        let id = e.mutation_ids@[k];
        self.lemma_occurrences_of_ids(e.mutation_ids@, id);
        id
    }

    /// The closed count of carriers is the open one.
    pub proof fn lemma_carriers_open(&self, ids: Seq<u32>, id: u32)
        requires
            self.wf(),
            id < self.id_count(),
            forall|k: int| 0 <= k < ids.len() ==> (#[trigger] ids[k]) < self.len(),
        ensures
            self.carriers(ids, id) == self.carrier_count(ids, self.mutation_of_id(id)),
        decreases ids.len(),
    {
        if ids.len() > 0 {
            let pre = ids.drop_last();
            assert forall|k: int| 0 <= k < pre.len() implies (#[trigger] pre[k]) < self.len() by {
                assert(pre[k] == ids[k]);
            }
            self.lemma_carriers_open(pre, id);
            let e = self.data@[ids.last() as int];
            assert(self.entry_wf(e));
            self.lemma_occurrences_of_ids(e.mutation_ids@, id);
        }
    }

    /// The closed count of unknowns is the open one.
    pub proof fn lemma_unknown_at_open(&self, ids: Seq<u32>, p: int)
        requires
            self.wf(),
            forall|k: int| 0 <= k < ids.len() ==> (#[trigger] ids[k]) < self.len(),
        ensures
            self.unknown_at(ids, p) == self.unknown_count(ids, p),
        decreases ids.len(),
    {
        if ids.len() > 0 {
            let pre = ids.drop_last();
            assert forall|k: int| 0 <= k < pre.len() implies (#[trigger] pre[k]) < self.len() by {
                assert(pre[k] == ids[k]);
            }
            self.lemma_unknown_at_open(pre, p);
            let e = self.data@[ids.last() as int];
            assert(self.entry_wf(e));
            lemma_covers_sorted(e.unknowns@, p);
            assert(self.unknowns_of(ids.last() as int) == e.unknowns@);
            assert(self.is_unknown(ids.last() as int, p) <==> covers(e.unknowns@, p) == 1);
        }
    }

    /// A mutation that the requested sequences carry has an id that they carry.
    proof fn lemma_carried_mutation_id(&self, ids: Seq<u32>, m: NucMutation) -> (id: u32)
        requires
            self.wf(),
            forall|k: int| 0 <= k < ids.len() ==> (#[trigger] ids[k]) < self.len(),
            self.carrier_count(ids, m) > 0,
        ensures
            id < self.id_count(),
            self.mutation_of_id(id) == m,
            self.carriers(ids, id) > 0,
        decreases ids.len(),
    {
        let pre = ids.drop_last();
        assert forall|k: int| 0 <= k < pre.len() implies (#[trigger] pre[k]) < self.len() by {
            assert(pre[k] == ids[k]);
        }
        if self.carrier_count(pre, m) > 0 {
            let id = self.lemma_carried_mutation_id(pre, m);
            id
        } else {
            let id = self.lemma_carried_has_id(ids.last() as int, m);
            id
        }
    }

    proof fn lemma_carrier_count_sum(&self, ids: Seq<u32>, m: NucMutation, f: spec_fn(u32) -> nat)
        requires
            forall|i: u32| #[trigger] f(i) == occurrences(self.mutations_of(i as int), m),
        ensures
            self.carrier_count(ids, m) == sum_over(ids, f),
        decreases ids.len(),
    {
        if ids.len() > 0 {
            self.lemma_carrier_count_sum(ids.drop_last(), m, f);
        }
    }

    proof fn lemma_unknown_count_sum(&self, ids: Seq<u32>, p: int, f: spec_fn(u32) -> nat)
        requires
            forall|i: u32| #[trigger] f(i) == if self.is_unknown(i as int, p) { 1nat } else { 0nat },
        ensures
            self.unknown_count(ids, p) == sum_over(ids, f),
        decreases ids.len(),
    {
        if ids.len() > 0 {
            self.lemma_unknown_count_sum(ids.drop_last(), p, f);
        }
    }

    /// Reordering the requested indices changes neither how often a mutation
    /// is carried nor how many sequences are unknown at a position, so
    /// `count_mutations` gives each mutation the same count and denominator.
    pub proof fn lemma_counts_permutation(&self, a: Seq<u32>, b: Seq<u32>, m: NucMutation, p: int)
        requires
            a.to_multiset() == b.to_multiset(),
        ensures
            self.carrier_count(a, m) == self.carrier_count(b, m),
            self.unknown_count(a, p) == self.unknown_count(b, p),
    {
        let f = |i: u32| occurrences(self.mutations_of(i as int), m);
        let g = |i: u32| if self.is_unknown(i as int, p) { 1nat } else { 0nat };
        self.lemma_carrier_count_sum(a, m, f);
        self.lemma_carrier_count_sum(b, m, f);
        self.lemma_unknown_count_sum(a, p, g);
        self.lemma_unknown_count_sum(b, p, g);
        lemma_sum_over_permutation(a, b, f);
        lemma_sum_over_permutation(a, b, g);
    }

    /// Counts, for every distinct mutation that the sequences with the given
    /// indices carry, how many of them carry it and how many of them are not
    /// unknown at its position. The counts come in the order of the mutations'
    /// ids, which is the order in which the store first saw them.
    pub fn count_mutations(&self, ids: &Vec<u32>) -> (r: Vec<MutationCount>)
        requires
            self.wf(),
            ids@.len() <= u32::MAX,
            forall|k: int| 0 <= k < ids@.len() ==> (#[trigger] ids@[k]) < self.len(),
        ensures
            ids@.len() == 0 ==> r@.len() == 0,
            r@.len() == self.observed(ids@).len(),
            forall|j: int| 0 <= j < r@.len() ==> #[trigger] r@[j] == self.count_of(ids@, self.observed(ids@)[j]),
            forall|j: int| 0 <= j < r@.len() ==> 1 <= (#[trigger] r@[j]).count <= r@[j].denominator,
            forall|id: u32| id < self.id_count() && self.carriers(ids@, id) > 0 ==> #[trigger] self.observed(ids@).contains(id),
            forall|j: int| 0 <= j < r@.len() ==> (#[trigger] r@[j]).count as nat == self.carrier_count(ids@, r@[j].mutation)
                && r@[j].denominator as int == ids@.len() - self.unknown_count(ids@, r@[j].mutation.position as int),
            forall|j: int, k: int| 0 <= j < k < r@.len() ==> (#[trigger] r@[j]).mutation != (#[trigger] r@[k]).mutation,
            forall|m: NucMutation| #[trigger] self.carrier_count(ids@, m) > 0 <==> has_mutation(r@, m),
    {
        broadcast use vstd::std_specs::hash::group_hash_axioms;
        let ghost s = ids@;
        let mut counter: Counter<u32> = Counter::new();
        let size: usize = self.max_position + 1;
        let mut unknown_counts: Vec<u32> = Vec::with_capacity(size);
        while unknown_counts.len() < size
            invariant
                unknown_counts@.len() <= size,
                forall|p: int| 0 <= p < unknown_counts@.len() ==> #[trigger] unknown_counts@[p] == 0,
            decreases size - unknown_counts@.len(),
        {
            unknown_counts.push(0);
        }
        let mut k: usize = 0;
        while k < ids.len()
            invariant
                self.wf(),
                s == ids@,
                s.len() <= u32::MAX,
                forall|a: int| 0 <= a < s.len() ==> (#[trigger] s[a]) < self.len(),
                k <= s.len(),
                size == self.max_position + 1,
                unknown_counts@.len() == size,
                forall|x: u32| #[trigger] counter.count(x) == self.carriers(s.subrange(0, k as int), x),
                forall|x: u32| #[trigger] counter.data@.contains_key(x) ==> x < self.id_count(),
                forall|p: int| 0 <= p < size ==> #[trigger] unknown_counts@[p] == self.unknown_at(s.subrange(0, k as int), p),
            decreases s.len() - k,
        {
            let ghost pre = s.subrange(0, k as int);
            let ghost post = s.subrange(0, k + 1);
            let entry = &self.data[ids[k] as usize];
            proof {
                assert(post.drop_last() == pre);
                assert(post.last() == s[k as int]);
                assert forall|a: int| 0 <= a < pre.len() implies (#[trigger] pre[a]) < self.len() by {
                    assert(pre[a] == s[a]);
                }
                assert forall|a: int| 0 <= a < post.len() implies (#[trigger] post[a]) < self.len() by {
                    assert(post[a] == s[a]);
                }
                assert(self.entry_wf(*entry));
                assert forall|x: u32| #[trigger] counter.count(x) + occurrences(entry.mutation_ids@, x) <= u32::MAX by {
                    self.lemma_carriers_at_most(post, x);
                }
                assert forall|p: int| 0 <= p < unknown_counts@.len() implies #[trigger] unknown_counts@[p] + covers(entry.unknowns@, p) <= u32::MAX by {
                    self.lemma_unknown_at_bounded(post, p);
                }
                assert forall|i: int| 0 <= i < entry.unknowns@.len() implies (#[trigger] entry.unknowns@[i]).1 < unknown_counts@.len() by {}
                assert forall|x: u32| entry.mutation_ids@.contains(x) implies x < self.id_count() by {}
            }
            counter.update(&entry.mutation_ids);
            add_unknowns(&mut unknown_counts, &entry.unknowns);
            k = k + 1;
        }
        proof {
            assert(s.subrange(0, k as int) == s);
        }
        let n: usize = self.mutation_dict.len();
        let mut result: Vec<MutationCount> = Vec::new();
        let total: u32 = ids.len() as u32;
        let mut id: usize = 0;
        while id < n
            invariant
                self.wf(),
                s == ids@,
                total == s.len(),
                n == self.id_count(),
                n <= u32::MAX,
                id <= n,
                forall|a: int| 0 <= a < s.len() ==> (#[trigger] s[a]) < self.len(),
                size == self.max_position + 1,
                unknown_counts@.len() == size,
                forall|x: u32| #[trigger] counter.count(x) == self.carriers(s, x),
                forall|p: int| 0 <= p < size ==> #[trigger] unknown_counts@[p] == self.unknown_at(s, p),
                result@.len() == self.observed_below(s, id as nat).len(),
                forall|j: int| 0 <= j < result@.len() ==> #[trigger] result@[j] == self.count_of(s, self.observed_below(s, id as nat)[j]),
            decreases n - id,
        {
            let this_id: u32 = id as u32;
            let count: u32 = match counter.data.get(&this_id) {
                Some(c) => *c,
                None => 0,
            };
            proof {
                assert(counter.count(this_id) == count);
            }
            if count > 0 {
                let key = self.mutation_dict.id_to_value(this_id);
                    let mutation = NucMutation::from_key(key);
                    proof {
                        assert(counter.count(this_id) == count);
                        self.lemma_carriers_bounded(s, this_id);
                        assert(mutation == self.mutation_of_id(this_id));
                        assert(mutation.position <= self.max_position);
                    }
                    let unknown = unknown_counts[mutation.position];
                    let denominator: u32 = total - unknown;
                    let ghost before = result@;
                    result.push(MutationCount { mutation, count, denominator });
                    proof {
                        assert(self.observed_below(s, (id + 1) as nat) == self.observed_below(s, id as nat).push(this_id));
                        assert forall|j: int| 0 <= j < result@.len() implies #[trigger] result@[j] == self.count_of(s, self.observed_below(s, (id + 1) as nat)[j]) by {
                            if j < before.len() {
                                assert(result@[j] == before[j]);
                            }
                        }
                    }
            } else {
                proof {
                    assert(self.observed_below(s, (id + 1) as nat) == self.observed_below(s, id as nat));
                }
            }
            id = id + 1;
        }
        proof {
            self.lemma_observed_below(s, n as nat);
            let obs = self.observed(s);
            assert forall|j: int| 0 <= j < result@.len() implies 1 <= (#[trigger] result@[j]).count <= result@[j].denominator by {
                let oid = obs[j];
                self.lemma_carriers_bounded(s, oid);
            }
            assert forall|j: int| 0 <= j < result@.len() implies (#[trigger] result@[j]).count as nat == self.carrier_count(s, result@[j].mutation)
                && result@[j].denominator as int == s.len() - self.unknown_count(s, result@[j].mutation.position as int) by {
                let oid = obs[j];
                self.lemma_carriers_bounded(s, oid);
                self.lemma_carriers_open(s, oid);
                self.lemma_unknown_at_open(s, self.mutation_of_id(oid).position as int);
            }
            assert forall|j: int, k: int| 0 <= j < k < result@.len() implies (#[trigger] result@[j]).mutation != (#[trigger] result@[k]).mutation by {
                if result@[j].mutation == result@[k].mutation {
                    self.lemma_mutation_of_id_injective(obs[j], obs[k]);
                }
            }
            assert forall|m: NucMutation| #[trigger] self.carrier_count(s, m) > 0 <==> has_mutation(result@, m) by {
                if self.carrier_count(s, m) > 0 {
                    let id = self.lemma_carried_mutation_id(s, m);
                    assert(obs.contains(id));
                    let j = choose|j: int| 0 <= j < obs.len() && obs[j] == id;
                    assert(result@[j].mutation == m);
                }
                if has_mutation(result@, m) {
                    let j = choose|j: int| 0 <= j < result@.len() && (#[trigger] result@[j]).mutation == m;
                    let oid = obs[j];
                    self.lemma_carriers_bounded(s, oid);
                    self.lemma_carriers_open(s, oid);
                }
            }
        }
        result
    }
}

} // verus!
