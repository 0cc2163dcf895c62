use std::collections::HashMap;
use std::hash::Hash;
use vstd::prelude::*;
use vstd::std_specs::hash::obeys_key_model;

verus! {

/// A bidirectional dictionary that gives each distinct value a dense id, in the
/// order in which the values are first seen.
pub struct BiDict<T: Copy + Eq + Hash> {
    entry_to_id_map: HashMap<T, u32>,
    values: Vec<T>,
}

impl<T: Copy + Eq + Hash> BiDict<T> {
    /// The values in the order of their ids.
    pub closed spec fn view(&self) -> Seq<T> {
        self.values@
    }

    /// The map from values to ids agrees with the list of values, which holds
    /// each value once.
    pub closed spec fn wf(&self) -> bool {
        &&& self.values@.len() <= u32::MAX
        &&& self.values@.no_duplicates()
        &&& forall|v: T| #[trigger] self.entry_to_id_map@.contains_key(v) <==> self.values@.contains(v)
        &&& forall|v: T| #[trigger] self.entry_to_id_map@.contains_key(v) ==> {
            let id = self.entry_to_id_map@[v];
            id < self.values@.len() && self.values@[id as int] == v
        }
    }

    pub fn new() -> (r: Self)
        ensures
            r.wf(),
            r@ == Seq::<T>::empty(),
    {
        BiDict { values: Vec::new(), entry_to_id_map: HashMap::new() }
    }

    pub fn len(&self) -> (r: usize)
        requires
            self.wf(),
        ensures
            r == self@.len(),
            r <= u32::MAX,
    {
        self.values.len()
    }

    /// The id of `value`: the existing one where an equal value was seen before,
    /// else the next id, which is then given to `value`.
    pub fn value_to_id(&mut self, value: T) -> (r: u32)
        requires
            old(self).wf(),
            obeys_key_model::<T>(),
            old(self)@.contains(value) || old(self)@.len() < u32::MAX,
        ensures
            final(self).wf(),
            old(self)@.contains(value) ==> final(self)@ == old(self)@ && old(self)@[r as int] == value,
            !old(self)@.contains(value) ==> final(self)@ == old(self)@.push(value) && r == old(self)@.len(),
            r < final(self)@.len() && final(self)@[r as int] == value,
    {
        broadcast use vstd::std_specs::hash::group_hash_axioms;
        match self.entry_to_id_map.get(&value) {
            Some(id) => {
                let id: u32 = *id;
                id
            },
            None => {
                let id: u32 = self.values.len() as u32;
                self.entry_to_id_map.insert(value, id);
                self.values.push(value);
                proof {
                    let old_vals = old(self).values@;
                    assert(self.values@ == old_vals.push(value));
                    assert forall|v: T| #[trigger] self.entry_to_id_map@.contains_key(v) <==> self.values@.contains(v) by {
                        if v != value {
                            if self.values@.contains(v) {
                                let k = choose|k: int| 0 <= k < self.values@.len() && self.values@[k] == v;
                                assert(old_vals[k] == v);
                            }
                            if old_vals.contains(v) {
                                let k = choose|k: int| 0 <= k < old_vals.len() && old_vals[k] == v;
                                assert(self.values@[k] == v);
                            }
                            assert(old(self).entry_to_id_map@.contains_key(v) <==> old_vals.contains(v));
                        } else {
                            assert(self.values@[old_vals.len() as int] == value);
                        }
                    }
                    assert forall|v: T| #[trigger] self.entry_to_id_map@.contains_key(v) implies {
                        let id = self.entry_to_id_map@[v];
                        id < self.values@.len() && self.values@[id as int] == v
                    } by {
                        if v != value {
                            assert(old(self).entry_to_id_map@.contains_key(v));
                        }
                    }
                    assert(self.values@.no_duplicates()) by {
                        assert forall|i: int, j: int| 0 <= i < self.values@.len() && 0 <= j < self.values@.len() && i != j
                            implies self.values@[i] != self.values@[j] by {
                            if i == old_vals.len() {
                                assert(!old_vals.contains(value));
                                assert(old_vals[j] == self.values@[j]);
                            } else if j == old_vals.len() {
                                assert(!old_vals.contains(value));
                                assert(old_vals[i] == self.values@[i]);
                            }
                        }
                    }
                }
                id
            },
        }
    }

    /// The value that has the id `id`.
    pub fn id_to_value(&self, id: u32) -> (r: T)
        requires
            id < self@.len(),
        ensures
            r == self@[id as int],
    {
        self.values[id as usize]
    }

    /// In a well-formed dictionary each id names one value and each value has
    /// one id: interning a value seen before gives back its id, and distinct
    /// values never share one.
    pub proof fn lemma_ids_identify_values(&self, i: int, j: int)
        requires
            self.wf(),
            0 <= i < self@.len(),
            0 <= j < self@.len(),
        ensures
            self@[i] == self@[j] <==> i == j,
    {
    }
}

} // verus!
