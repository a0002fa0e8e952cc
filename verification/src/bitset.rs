//! A growable set of small indices, used for per-entity component membership.
//!
//! Component types are identified by small dense integers, so a vector of
//! flags indexed by type makes membership, subset and disjointness checks
//! cheap and easy to reason about.

use vstd::prelude::*;

verus! {

/// A set of `usize` indices backed by a vector of flags.
pub struct BitSet {
    bits: Vec<bool>,
}

impl BitSet {
    /// The membership predicate: `i` is in the set.
    pub closed spec fn has(self, i: int) -> bool {
        0 <= i < self.bits@.len() && self.bits@[i]
    }

    /// The set of indices currently present.
    pub open spec fn view(self) -> Set<int> {
        Set::new(|i: int| self.has(i))
    }

    /// Creates an empty set.
    pub fn new() -> (r: BitSet)
        ensures
            forall|i: int| !r.has(i),
    {
        BitSet { bits: Vec::new() }
    }

    /// Inserts `index` into the set.
    pub fn insert(&mut self, index: usize)
        ensures
            forall|i: int| final(self).has(i) <==> (old(self).has(i) || i == index),
    {
        while self.bits.len() <= index
            invariant
                forall|i: int| self.has(i) <==> old(self).has(i),
            decreases index + 1 - self.bits.len(),
        {
            self.bits.push(false);
        }
        self.bits.set(index, true);
    }

    /// Removes `index` from the set, if present.
    pub fn remove(&mut self, index: usize)
        ensures
            forall|i: int| final(self).has(i) <==> (old(self).has(i) && i != index),
    {
        if index < self.bits.len() {
            self.bits.set(index, false);
        }
    }

    /// Tests whether `index` is in the set.
    pub fn contains(&self, index: usize) -> (r: bool)
        ensures
            r == self.has(index as int),
    {
        index < self.bits.len() && self.bits[index]
    }

    /// Empties the set.
    pub fn clear(&mut self)
        ensures
            forall|i: int| !final(self).has(i),
    {
        self.bits.clear();
    }

    /// Tests whether the set has no element.
    pub fn is_empty(&self) -> (r: bool)
        ensures
            r <==> (forall|i: int| !self.has(i)),
    {
        let mut k: usize = 0;
        while k < self.bits.len()
            invariant
                k <= self.bits@.len(),
                forall|i: int| 0 <= i < k ==> !self.bits@[i],
            decreases self.bits@.len() - k,
        {
            if self.bits[k] {
                assert(self.has(k as int));
                return false;
            }
            k += 1;
        }
        true
    }

    /// Tests whether every element of `self` is also in `other`.
    pub fn is_subset(&self, other: &BitSet) -> (r: bool)
        ensures
            r <==> (forall|i: int| self.has(i) ==> other.has(i)),
    {
        let mut k: usize = 0;
        while k < self.bits.len()
            invariant
                k <= self.bits@.len(),
                forall|i: int| 0 <= i < k && self.has(i) ==> other.has(i),
            decreases self.bits@.len() - k,
        {
            if self.bits[k] && !other.contains(k) {
                return false;
            }
            k += 1;
        }
        true
    }

    /// Collects the elements of the set, in ascending order.
    pub fn to_indices(&self) -> (r: Vec<usize>)
        ensures
            forall|e: int| self.has(e) <==> exists|k: int| 0 <= k < r@.len() && #[trigger] r@[k]
                == e,
            forall|k1: int, k2: int| 0 <= k1 < k2 < r@.len() ==> r@[k1] < r@[k2],
    {
        let mut out: Vec<usize> = Vec::new();
        let mut k: usize = 0;
        while k < self.bits.len()
            invariant
                k <= self.bits@.len(),
                forall|e: int|
                    (0 <= e < k && self.has(e)) <==> exists|j: int|
                        0 <= j < out@.len() && #[trigger] out@[j] == e,
                forall|j1: int, j2: int| 0 <= j1 < j2 < out@.len() ==> out@[j1] < out@[j2],
                forall|j: int| 0 <= j < out@.len() ==> #[trigger] out@[j] < k,
            decreases self.bits@.len() - k,
        {
            if self.bits[k] {
                assert(self.has(k as int));
                let ghost prev = out@;
                out.push(k);
                assert forall|e: int| (0 <= e < k + 1 && self.has(e)) implies exists|j: int|
                    0 <= j < out@.len() && #[trigger] out@[j] == e by {
                    if e == k as int {
                        assert(out@[out@.len() - 1] == e);
                    } else {
                        let j = choose|j: int| 0 <= j < prev.len() && #[trigger] prev[j] == e;
                        assert(out@[j] == e);
                    }
                }
            }
            k += 1;
        }
        assert forall|e: int| self.has(e) implies (0 <= e < self.bits@.len()) by {}
        out
    }

    /// Tests whether `self` and `other` have no element in common.
    pub fn is_disjoint(&self, other: &BitSet) -> (r: bool)
        ensures
            r <==> (forall|i: int| !(self.has(i) && other.has(i))),
    {
        let mut k: usize = 0;
        while k < self.bits.len()
            invariant
                k <= self.bits@.len(),
                forall|i: int| 0 <= i < k ==> !(self.has(i) && other.has(i)),
            decreases self.bits@.len() - k,
        {
            if self.bits[k] && other.contains(k) {
                return false;
            }
            k += 1;
        }
        true
    }
}

} // verus!
