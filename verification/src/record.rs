//! A deduplicating record of entity updates.
//!
//! A flat journal for callers that only need to count what happened:
//! updates are plain entity-and-kind pairs, adding the same update twice
//! records it once, and the count of distinct updates can be read off.

use vstd::prelude::*;
use crate::entity::Entity;

verus! {

/// The kinds of entity updates.
#[derive(Clone, Copy, PartialEq, Eq, Structural, Debug, Hash)]
pub enum Type {
    Created,
    Removed,
    Changed,
}

/// An update: which entity, and what happened to it.
#[derive(Clone, Copy, PartialEq, Eq, Structural, Debug, Hash)]
pub struct Update {
    pub entity: Entity,
    pub update_type: Type,
}

impl Update {
    /// An update recording that `entity` was created.
    pub fn new_created(entity: Entity) -> (r: Update)
        ensures
            r == (Update { entity, update_type: Type::Created }),
    {
        Update { entity, update_type: Type::Created }
    }

    /// An update recording that `entity` was removed.
    pub fn new_removed(entity: Entity) -> (r: Update)
        ensures
            r == (Update { entity, update_type: Type::Removed }),
    {
        Update { entity, update_type: Type::Removed }
    }

    /// An update recording that `entity` was changed.
    pub fn new_changed(entity: Entity) -> (r: Update)
        ensures
            r == (Update { entity, update_type: Type::Changed }),
    {
        Update { entity, update_type: Type::Changed }
    }
}

/// A set of recorded updates, ignoring repeats.
pub struct Record {
    updates: Vec<Update>,
}

impl Record {
    /// The recorded updates, in first-recording order.
    pub closed spec fn recorded(self) -> Seq<Update> {
        self.updates@
    }

    /// Whether `u` has been recorded.
    pub open spec fn has(self, u: Update) -> bool {
        exists|k: int| 0 <= k < self.recorded().len() && self.recorded()[k] == u
    }

    /// Well-formed: no update is recorded twice.
    pub open spec fn wf(self) -> bool {
        forall|k1: int, k2: int|
            #![trigger self.recorded()[k1], self.recorded()[k2]]
            0 <= k1 < k2 < self.recorded().len() ==> self.recorded()[k1] != self.recorded()[k2]
    }

    /// Creates an empty record.
    pub fn new() -> (r: Record)
        ensures
            r.wf(),
            r.recorded() == Seq::<Update>::empty(),
    {
        Record { updates: Vec::new() }
    }

    /// Records an update, once: a repeat of an already recorded update
    /// leaves the record as it is.
    pub fn add(&mut self, update: Update)
        requires
            old(self).wf(),
        ensures
            final(self).wf(),
            final(self).recorded() == if old(self).has(update) {
                old(self).recorded()
            } else {
                old(self).recorded().push(update)
            },
            forall|u: Update| #[trigger] final(self).has(u) <==> (old(self).has(u) || u == update),
    {
        let mut k: usize = 0;
        while k < self.updates.len()
            invariant
                self == old(self),
                old(self).wf(),
                k <= self.recorded().len(),
                forall|j: int| 0 <= j < k ==> self.recorded()[j] != update,
            decreases self.recorded().len() - k,
        {
            if self.updates[k] == update {
                assert(self.recorded()[k as int] == update);
                assert(forall|u: Update| #[trigger]
                    self.has(u) <==> (old(self).has(u) || u == update));
                return ;
            }
            k += 1;
        }
        proof {
            assert(!old(self).has(update));
        }
        self.updates.push(update);
        proof {
            let n = self.recorded().len() - 1;
            assert(self.recorded()[n] == update);
            assert forall|u: Update| #[trigger] self.has(u) implies (old(self).has(u) || u
                == update) by {
                let j = choose|j: int| 0 <= j < self.recorded().len() && self.recorded()[j] == u;
                if j < n {
                    assert(old(self).recorded()[j] == u);
                }
            }
            assert forall|u: Update| old(self).has(u) implies self.has(u) by {
                let j = choose|j: int|
                    0 <= j < old(self).recorded().len() && old(self).recorded()[j] == u;
                assert(self.recorded()[j] == u);
            }
            assert forall|k1: int, k2: int|
                #![trigger self.recorded()[k1], self.recorded()[k2]]
                0 <= k1 < k2 < self.recorded().len() implies self.recorded()[k1]
                != self.recorded()[k2] by {
                if k2 == n {
                    assert(self.recorded()[k1] == old(self).recorded()[k1]);
                    assert(!old(self).has(update));
                }
            }
        }
    }

    /// The number of distinct updates recorded.
    pub fn get_update_count(&self) -> (r: usize)
        ensures
            r == self.recorded().len(),
    {
        self.updates.len()
    }
}

} // verus!
