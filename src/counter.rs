use std::collections::HashMap;
use std::hash::Hash;
use vstd::prelude::*;
use vstd::std_specs::hash::obeys_key_model;

verus! {

/// How often `x` occurs in `s`.
pub open spec fn occurrences<T>(s: Seq<T>, x: T) -> nat
    decreases s.len(),
{
    if s.len() == 0 {
        0
    } else {
        occurrences(s.drop_last(), x) + if s.last() == x { 1nat } else { 0nat }
    }
}

/// A tally of the items of any number of lists.
pub struct Counter<T: Copy + Eq + Hash> {
    pub data: HashMap<T, u32>,
}

impl<T: Copy + Eq + Hash> Counter<T> {
    /// How often `x` has been counted so far.
    pub open spec fn count(&self, x: T) -> nat {
        if self.data@.contains_key(x) { self.data@[x] as nat } else { 0 }
    }

    pub fn new() -> (r: Counter<T>)
        ensures
            r.data@ == Map::<T, u32>::empty(),
    {
        Counter { data: HashMap::new() }
    }

    /// Adds one to the count of every item of `list`, once per occurrence.
    pub fn update(&mut self, list: &Vec<T>)
        requires
            obeys_key_model::<T>(),
            forall|x: T| #[trigger] old(self).count(x) + occurrences(list@, x) <= u32::MAX,
        ensures
            forall|x: T| #[trigger] final(self).count(x) == old(self).count(x) + occurrences(list@, x),
            forall|x: T| #[trigger] final(self).data@.contains_key(x)
                <==> old(self).data@.contains_key(x) || list@.contains(x),
    {
        broadcast use vstd::std_specs::hash::group_hash_axioms;
        let mut i: usize = 0;
        while i < list.len()
            invariant
                obeys_key_model::<T>(),
                i <= list@.len(),
                forall|x: T| #[trigger] old(self).count(x) + occurrences(list@, x) <= u32::MAX,
                forall|x: T| #[trigger] self.count(x) == old(self).count(x) + occurrences(list@.subrange(0, i as int), x),
                forall|x: T| #[trigger] self.data@.contains_key(x)
                    <==> old(self).data@.contains_key(x) || list@.subrange(0, i as int).contains(x),
            decreases list@.len() - i,
        {
            let item: T = list[i];
            proof {
                let pre = list@.subrange(0, i as int);
                let post = list@.subrange(0, i + 1);
                assert(post.len() == i + 1);
                assert(post.drop_last() == pre);
                assert(post.last() == item);
                lemma_occurrences_prefix(list@, i as int + 1, item);
                assert forall|x: T| #[trigger] post.contains(x) <==> pre.contains(x) || x == item by {
                    if pre.contains(x) {
                        let k = choose|k: int| 0 <= k < pre.len() && pre[k] == x;
                        assert(post[k] == x);
                    }
                    if post.contains(x) && x != item {
                        let k = choose|k: int| 0 <= k < post.len() && post[k] == x;
                        assert(k != i);
                        assert(pre[k] == x);
                    }
                    if x == item {
                        assert(post[i as int] == x);
                    }
                }
            }
            let current: u32 = match self.data.get(&item) {
                Some(c) => *c,
                None => 0,
            };
            proof {
                assert(current == self.count(item));
                assert(occurrences(list@.subrange(0, i + 1), item) == occurrences(list@.subrange(0, i as int), item) + 1);
            }
            let ghost before = *self;
            self.data.insert(item, current + 1);
            proof {
                assert forall|x: T| #[trigger] self.count(x) == old(self).count(x) + occurrences(list@.subrange(0, i + 1), x) by {
                    let post = list@.subrange(0, i + 1);
                    assert(post.drop_last() == list@.subrange(0, i as int));
                    if x != item {
                        assert(self.count(x) == before.count(x));
                    }
                }
            }
            i = i + 1;
        }
        proof {
            assert(list@.subrange(0, i as int) == list@);
        }
    }
}

/// The occurrences in a prefix never exceed those in the whole sequence.
proof fn lemma_occurrences_prefix<T>(s: Seq<T>, n: int, x: T)
    requires
        0 <= n <= s.len(),
    ensures
        occurrences(s.subrange(0, n), x) <= occurrences(s, x),
    decreases s.len(),
{
    if n < s.len() {
        assert(s.drop_last().subrange(0, n) == s.subrange(0, n));
        lemma_occurrences_prefix(s.drop_last(), n, x);
    } else {
        assert(s.subrange(0, n) == s);
    }
}

/// In a sequence without duplicates an item occurs once if it is there, else never.
pub proof fn lemma_occurrences_no_duplicates<T>(s: Seq<T>, x: T)
    requires
        s.no_duplicates(),
    ensures
        occurrences(s, x) <= 1,
        occurrences(s, x) == 1 <==> s.contains(x),
    decreases s.len(),
{
    if s.len() > 0 {
        let pre = s.drop_last();
        assert(pre.no_duplicates()) by {
            assert forall|i: int, j: int| 0 <= i < pre.len() && 0 <= j < pre.len() && i != j implies pre[i] != pre[j] by {
                assert(pre[i] == s[i] && pre[j] == s[j]);
            }
        }
        lemma_occurrences_no_duplicates(pre, x);
        if s.last() == x && pre.contains(x) {
            let k = choose|k: int| 0 <= k < pre.len() && pre[k] == x;
            assert(s[k] == s[s.len() - 1]);
        }
        if s.contains(x) {
            let k = choose|k: int| 0 <= k < s.len() && s[k] == x;
            if k < pre.len() {
                assert(pre[k] == x);
            }
        }
        if pre.contains(x) {
            let k = choose|k: int| 0 <= k < pre.len() && pre[k] == x;
            assert(s[k] == x);
        }
    }
}

} // verus!
