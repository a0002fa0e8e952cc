//! A small set of names, used for the group memberships of an entity.
//!
//! Group names are short strings and each entity belongs to few groups, so a
//! duplicate-free vector is enough, and it keeps the membership predicate
//! directly available to contracts.

use vstd::prelude::*;

verus! {

/// A set of strings backed by a duplicate-free vector.
pub struct NameSet {
    items: Vec<String>,
}

impl NameSet {
    /// The names currently present, in insertion order.
    pub closed spec fn names(self) -> Seq<Seq<char>> {
        self.items@.map(|k: int, s: String| s@)
    }

    /// The membership predicate: `n` is in the set.
    pub open spec fn has(self, n: Seq<char>) -> bool {
        exists|k: int| 0 <= k < self.names().len() && self.names()[k] == n
    }

    /// The set of names currently present.
    pub open spec fn view(self) -> Set<Seq<char>> {
        Set::new(|n: Seq<char>| self.has(n))
    }

    /// Well-formed: no name occurs twice.
    pub open spec fn wf(self) -> bool {
        forall|k1: int, k2: int|
            #![trigger self.names()[k1], self.names()[k2]]
            0 <= k1 < k2 < self.names().len() ==> self.names()[k1] != self.names()[k2]
    }

    /// Distinct positions of a well-formed set hold distinct names.
    proof fn lemma_distinct(&self, i: int, j: int)
        requires
            self.wf(),
            0 <= i < self.names().len(),
            0 <= j < self.names().len(),
            i != j,
        ensures
            self.names()[i] != self.names()[j],
    {
        if i < j {
            assert(self.names()[i] != self.names()[j]);
        } else {
            assert(self.names()[j] != self.names()[i]);
        }
    }

    /// Creates an empty set.
    pub fn new() -> (r: NameSet)
        ensures
            r.wf(),
            r.names() == Seq::<Seq<char>>::empty(),
    {
        NameSet { items: Vec::new() }
    }

    /// The number of names in the set.
    pub fn len(&self) -> (r: usize)
        ensures
            r == self.names().len(),
    {
        self.items.len()
    }

    /// Returns the name at position `k`, in insertion order.
    pub fn index(&self, k: usize) -> (r: &String)
        requires
            k < self.names().len(),
        ensures
            r@ == self.names()[k as int],
    {
        &self.items[k]
    }

    /// Tests whether `name` is in the set.
    pub fn contains(&self, name: &str) -> (r: bool)
        ensures
            r == self.has(name@),
    {
        let wanted: String = name.to_owned();
        let mut k: usize = 0;
        while k < self.items.len()
            invariant
                k <= self.names().len(),
                wanted@ == name@,
                forall|j: int| 0 <= j < k ==> self.names()[j] != name@,
            decreases self.names().len() - k,
        {
            if self.items[k] == wanted {
                assert(self.names()[k as int] == name@);
                return true;
            }
            k += 1;
        }
        false
    }

    /// Inserts `name` into the set, if absent.
    pub fn insert(&mut self, name: &str)
        requires
            old(self).wf(),
        ensures
            final(self).wf(),
            final(self).names() == if old(self).has(name@) {
                old(self).names()
            } else {
                old(self).names().push(name@)
            },
            forall|n: Seq<char>| #[trigger] final(self).has(n) <==> (old(self).has(n) || n == name@),
    {
        if !self.contains(name) {
            self.items.push(name.to_owned());
            assert(self.names() =~= old(self).names().push(name@));
            assert forall|n: Seq<char>| #[trigger] self.has(n) implies (old(self).has(n) || n
                == name@) by {
                let k = choose|k: int| 0 <= k < self.names().len() && self.names()[k] == n;
                if k < old(self).names().len() {
                    assert(old(self).has(n));
                }
            }
            assert(self.has(name@)) by {
                assert(self.names()[self.names().len() - 1] == name@);
            }
            assert forall|n: Seq<char>| old(self).has(n) implies self.has(n) by {
                let k = choose|k: int|
                    0 <= k < old(self).names().len() && old(self).names()[k] == n;
                assert(self.names()[k] == n);
            }
        } else {
            assert(forall|n: Seq<char>| #[trigger] self.has(n) <==> (old(self).has(n) || n
                == name@));
        }
    }

    /// Removes `name` from the set, if present.
    pub fn remove(&mut self, name: &str)
        requires
            old(self).wf(),
        ensures
            final(self).wf(),
            forall|n: Seq<char>| #[trigger] final(self).has(n) <==> (old(self).has(n) && n
                != name@),
    {
        let wanted: String = name.to_owned();
        let mut k: usize = 0;
        while k < self.items.len()
            invariant
                self == old(self),
                old(self).wf(),
                k <= self.names().len(),
                wanted@ == name@,
                forall|j: int| 0 <= j < k ==> self.names()[j] != name@,
            decreases self.names().len() - k,
        {
            if self.items[k] == wanted {
                assert(self.names()[k as int] == name@);
                let ki = k;
                self.items.remove(ki);
                assert(self.names() =~= old(self).names().remove(ki as int));
                assert forall|n: Seq<char>| #[trigger] self.has(n) implies (old(self).has(n) && n
                    != name@) by {
                    let j = choose|j: int| 0 <= j < self.names().len() && self.names()[j] == n;
                    if j < ki {
                        assert(old(self).names()[j] == n);
                        old(self).lemma_distinct(j, ki as int);
                    } else {
                        assert(old(self).names()[j + 1] == n);
                        old(self).lemma_distinct(ki as int, j + 1);
                    }
                }
                assert forall|k1: int, k2: int|
                    0 <= k1 < k2 < self.names().len() implies #[trigger] self.names()[k1]
                    != #[trigger] self.names()[k2] by {
                    let i1: int = if k1 < ki { k1 } else { k1 + 1 };
                    let i2: int = if k2 < ki { k2 } else { k2 + 1 };
                    assert(self.names()[k1] == old(self).names()[i1]);
                    assert(self.names()[k2] == old(self).names()[i2]);
                    old(self).lemma_distinct(i1, i2);
                }
                assert forall|n: Seq<char>| old(self).has(n) && n != name@ implies self.has(n) by {
                    let j = choose|j: int|
                        0 <= j < old(self).names().len() && old(self).names()[j] == n;
                    if j < ki {
                        assert(self.names()[j] == n);
                    } else {
                        assert(old(self).names()[ki as int] == name@);
                        assert(j != ki);
                        assert(self.names()[j - 1] == n);
                    }
                }
                return;
            }
            k += 1;
        }
        assert forall|n: Seq<char>| #[trigger] self.has(n) implies (old(self).has(n) && n
            != name@) by {
            let j = choose|j: int| 0 <= j < self.names().len() && self.names()[j] == n;
            assert(self.names()[j] != name@);
        }
    }

    /// Empties the set.
    pub fn clear(&mut self)
        ensures
            final(self).wf(),
            final(self).names() == Seq::<Seq<char>>::empty(),
            forall|n: Seq<char>| !final(self).has(n),
    {
        self.items.clear();
        assert(self.names() =~= Seq::<Seq<char>>::empty());
    }

    /// Tests whether every name of `self` is also in `other`.
    pub fn is_subset(&self, other: &NameSet) -> (r: bool)
        ensures
            r <==> (forall|n: Seq<char>| #[trigger] self.has(n) ==> other.has(n)),
    {
        let mut k: usize = 0;
        while k < self.items.len()
            invariant
                k <= self.names().len(),
                forall|j: int| 0 <= j < k ==> other.has(#[trigger] self.names()[j]),
            decreases self.names().len() - k,
        {
            if !other.contains(self.items[k].as_str()) {
                assert(self.has(self.names()[k as int]));
                return false;
            }
            k += 1;
        }
        assert forall|n: Seq<char>| #[trigger] self.has(n) implies other.has(n) by {
            let j = choose|j: int| 0 <= j < self.names().len() && self.names()[j] == n;
            assert(other.has(self.names()[j]));
        }
        true
    }

    /// Tests whether `self` and `other` have no name in common.
    pub fn is_disjoint(&self, other: &NameSet) -> (r: bool)
        ensures
            r <==> (forall|n: Seq<char>| !(#[trigger] self.has(n) && other.has(n))),
    {
        let mut k: usize = 0;
        while k < self.items.len()
            invariant
                k <= self.names().len(),
                forall|j: int| 0 <= j < k ==> !other.has(#[trigger] self.names()[j]),
            decreases self.names().len() - k,
        {
            if other.contains(self.items[k].as_str()) {
                assert(self.has(self.names()[k as int]));
                return false;
            }
            k += 1;
        }
        assert forall|n: Seq<char>| !(#[trigger] self.has(n) && other.has(n)) by {
            if self.has(n) {
                let j = choose|j: int| 0 <= j < self.names().len() && self.names()[j] == n;
                assert(!other.has(self.names()[j]));
            }
        }
        true
    }
}

} // verus!
