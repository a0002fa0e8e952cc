//! A sparse map from small integer keys to values.
//!
//! Entities and component type indices are dense small integers, so a vector
//! of optional slots gives constant-time lookup and a simple model: the slot
//! sequence itself.

use vstd::prelude::*;
use vstd::pervasive::unreached;

verus! {

/// A map keyed by `usize`, backed by a vector of optional slots.
pub struct VecMap<T> {
    slots: Vec<Option<T>>,
}

impl<T> VecMap<T> {
    /// The membership predicate: key `k` is bound.
    pub closed spec fn has_key(self, k: int) -> bool {
        0 <= k < self.slots@.len() && self.slots@[k] is Some
    }

    /// The value bound to key `k`.
    pub closed spec fn spec_get(self, k: int) -> T
        recommends
            self.has_key(k),
    {
        self.slots@[k]->0
    }

    /// The map currently represented.
    pub open spec fn view(self) -> Map<int, T> {
        Map::new(|k: int| self.has_key(k), |k: int| self.spec_get(k))
    }

    /// Creates an empty map.
    pub fn new() -> (r: VecMap<T>)
        ensures
            forall|k: int| !r.has_key(k),
    {
        VecMap { slots: Vec::new() }
    }

    /// Tests whether key `k` is bound.
    pub fn contains_key(&self, k: usize) -> (r: bool)
        ensures
            r == self.has_key(k as int),
    {
        k < self.slots.len() && self.slots[k].is_some()
    }

    /// Binds key `k` to `value`, replacing any previous binding.
    pub fn insert(&mut self, k: usize, value: T)
        ensures
            forall|j: int| #[trigger] final(self).has_key(j) <==> (old(self).has_key(j) || j
                == k),
            final(self).spec_get(k as int) == value,
            forall|j: int|
                j != k && old(self).has_key(j) ==> #[trigger] final(self).spec_get(j) == old(
                    self,
                ).spec_get(j),
    {
        while self.slots.len() <= k
            invariant
                forall|j: int| #[trigger] self.has_key(j) <==> old(self).has_key(j),
                forall|j: int|
                    old(self).has_key(j) ==> #[trigger] self.spec_get(j) == old(self).spec_get(j),
            decreases k + 1 - self.slots.len(),
        {
            let ghost prev = *self;
            self.slots.push(None);
            proof {
                assert forall|j: int| #[trigger] self.has_key(j) <==> prev.has_key(j) by {
                    if 0 <= j < prev.slots@.len() {
                        assert(self.slots@[j] == prev.slots@[j]);
                    }
                }
                assert forall|j: int| prev.has_key(j) implies #[trigger] self.spec_get(j)
                    == prev.spec_get(j) by {
                    assert(self.slots@[j] == prev.slots@[j]);
                }
            }
        }
        let ghost mid = *self;
        self.slots.set(k, Some(value));
        proof {
            assert forall|j: int| #[trigger] self.has_key(j) <==> (old(self).has_key(j) || j
                == k as int) by {
                assert(mid.has_key(j) <==> old(self).has_key(j));
                if j != k as int && 0 <= j < self.slots@.len() {
                    assert(self.slots@[j] == mid.slots@[j]);
                }
            }
            assert forall|j: int| j != k as int && old(self).has_key(j) implies #[trigger] self
                .spec_get(j) == old(self).spec_get(j) by {
                assert(mid.has_key(j) <==> old(self).has_key(j));
                assert(mid.spec_get(j) == old(self).spec_get(j));
                assert(self.slots@[j] == mid.slots@[j]);
            }
        }
    }

    /// Unbinds key `k`, returning the value it was bound to, if any.
    pub fn remove(&mut self, k: usize) -> (r: Option<T>)
        ensures
            forall|j: int| #[trigger] final(self).has_key(j) <==> (old(self).has_key(j) && j
                != k),
            forall|j: int|
                j != k && old(self).has_key(j) ==> #[trigger] final(self).spec_get(j) == old(
                    self,
                ).spec_get(j),
            r == if old(self).has_key(k as int) {
                Some(old(self).spec_get(k as int))
            } else {
                Option::<T>::None
            },
    {
        if k < self.slots.len() {
            self.slots[k].take()
        } else {
            None
        }
    }

    /// Returns a reference to the value bound to key `k`, if any.
    pub fn get(&self, k: usize) -> (r: Option<&T>)
        ensures
            match r {
                Some(v) => self.has_key(k as int) && *v == self.spec_get(k as int),
                None => !self.has_key(k as int),
            },
    {
        if k < self.slots.len() {
            self.slots[k].as_ref()
        } else {
            None
        }
    }

    /// Returns a mutable reference to the value bound to key `k`.
    pub fn get_mut(&mut self, k: usize) -> (r: &mut T)
        requires
            old(self).has_key(k as int),
        ensures
            *r == old(self).spec_get(k as int),
            forall|j: int| #[trigger] final(self).has_key(j) <==> old(self).has_key(j),
            final(self).spec_get(k as int) == *final(r),
            forall|j: int|
                j != k && old(self).has_key(j) ==> #[trigger] final(self).spec_get(j) == old(
                    self,
                ).spec_get(j),
    {
        let slot = &mut self.slots[k];
        match slot {
            Some(v) => v,
            None => unreached(),
        }
    }

    /// The number of slots ever touched; an upper bound on the keys.
    pub fn capacity(&self) -> (r: usize)
        ensures
            forall|j: int| self.has_key(j) ==> 0 <= j < r,
    {
        self.slots.len()
    }
}

} // verus!
