use crate::mutation_store::{MutationCount, MutationStore};
use crate::nuc_code::NucCode;
use vstd::prelude::*;

verus! {

/// The indices of the first `n` entries of the mask that are true, in order.
pub open spec fn true_indices(mask: Seq<bool>, n: int) -> Seq<u32>
    decreases n,
{
    if n <= 0 {
        Seq::empty()
    } else if mask[n - 1] {
        true_indices(mask, n - 1).push((n - 1) as u32)
    } else {
        true_indices(mask, n - 1)
    }
}

/// Whether a count is kept: its proportion is at least `min_num / min_den`,
/// and it is not a deletion unless deletions are included.
pub open spec fn kept(c: MutationCount, min_num: u64, min_den: u64, include_deletions: bool) -> bool {
    &&& c.count as int * min_den as int >= min_num as int * c.denominator as int
    &&& (include_deletions || c.mutation.to != NucCode::GAP)
}

/// The counts among the first `n` that are kept, in order.
pub open spec fn kept_counts(cs: Seq<MutationCount>, n: int, min_num: u64, min_den: u64, include_deletions: bool) -> Seq<MutationCount>
    decreases n,
{
    if n <= 0 {
        Seq::empty()
    } else if kept(cs[n - 1], min_num, min_den, include_deletions) {
        kept_counts(cs, n - 1, min_num, min_den, include_deletions).push(cs[n - 1])
    } else {
        kept_counts(cs, n - 1, min_num, min_den, include_deletions)
    }
}

/// The indices of the sequences that a filter selected.
pub fn selected_indices(filtered: &Vec<bool>) -> (r: Vec<u32>)
    requires
        filtered@.len() <= u32::MAX + 1,
    ensures
        r@ == true_indices(filtered@, filtered@.len() as int),
        forall|k: int| 0 <= k < r@.len() ==> (#[trigger] r@[k]) < filtered@.len(),
        r@.len() <= filtered@.len(),
{
    let mut ids: Vec<u32> = Vec::new();
    let mut i: usize = 0;
    while i < filtered.len()
        invariant
            i <= filtered@.len() <= u32::MAX + 1,
            ids@ == true_indices(filtered@, i as int),
            forall|k: int| 0 <= k < ids@.len() ==> (#[trigger] ids@[k]) < i,
            ids@.len() <= i,
        decreases filtered@.len() - i,
    {
        if filtered[i] {
            ids.push(i as u32);
        }
        i = i + 1;
    }
    ids
}

/// Keeps the counts whose proportion is at least `min_num / min_den` and,
/// unless `include_deletions`, drops those of deletions.
pub fn select_counts(counts: Vec<MutationCount>, min_num: u64, min_den: u64, include_deletions: bool) -> (r: Vec<MutationCount>)
    ensures
        r@ == kept_counts(counts@, counts@.len() as int, min_num, min_den, include_deletions),
{
    let mut result: Vec<MutationCount> = Vec::new();
    let mut i: usize = 0;
    while i < counts.len()
        invariant
            i <= counts@.len(),
            result@ == kept_counts(counts@, i as int, min_num, min_den, include_deletions),
        decreases counts@.len() - i,
    {
        let c = counts[i];
        proof {
            assert(c.count as int * min_den as int <= u128::MAX) by (nonlinear_arith)
                requires c.count <= u32::MAX, min_den <= u64::MAX;
            assert(min_num as int * c.denominator as int <= u128::MAX) by (nonlinear_arith)
                requires c.denominator <= u32::MAX, min_num <= u64::MAX;
        }
        let frequent = c.count as u128 * min_den as u128 >= min_num as u128 * c.denominator as u128;
        if frequent && (include_deletions || c.mutation.to != NucCode::GAP) {
            result.push(c);
        }
        i = i + 1;
    }
    result
}

/// The mutation counts of the sequences that a filter selected, with the
/// counts that [`select_counts`] keeps.
pub fn nuc_mutation_counts(
    store: &MutationStore,
    filtered: &Vec<bool>,
    min_num: u64,
    min_den: u64,
    include_deletions: bool,
) -> (r: Vec<MutationCount>)
    requires
        store.wf(),
        filtered@.len() == store.len(),
        filtered@.len() <= u32::MAX,
    ensures
        r@ == kept_counts(store.counts_spec(true_indices(filtered@, filtered@.len() as int)),
            store.observed(true_indices(filtered@, filtered@.len() as int)).len() as int, min_num, min_den, include_deletions),
{
    let ids = selected_indices(filtered);
    let counts = store.count_mutations(&ids);
    proof {
        assert(counts@ =~= store.counts_spec(ids@));
    }
    select_counts(counts, min_num, min_den, include_deletions)
}

/// A loaded dataset's mutations.
pub struct Database2 {
    pub size: u32,
    pub nuc_mutation_store: MutationStore,
}

impl Database2 {
    /// The counts of the mutations of the given sequences whose proportion is
    /// at least 5%.
    pub fn nuc_muts(&self, ids: &Vec<u32>) -> (r: Vec<MutationCount>)
        requires
            self.nuc_mutation_store.wf(),
            ids@.len() <= u32::MAX,
            forall|k: int| 0 <= k < ids@.len() ==> (#[trigger] ids@[k]) < self.nuc_mutation_store.len(),
        ensures
            r@ == kept_counts(self.nuc_mutation_store.counts_spec(ids@), self.nuc_mutation_store.observed(ids@).len() as int, 1, 20, true),
    {
        let counts = self.nuc_mutation_store.count_mutations(ids);
        proof {
            assert(counts@ =~= self.nuc_mutation_store.counts_spec(ids@));
        }
        select_counts(counts, 1, 20, true)
    }
}

} // verus!
