//! The ordered collection of systems.
//!
//! Systems run in registration order, every tick. A slot records a system's
//! identity and whether it is awake: a sleeping system keeps receiving
//! entity notifications but is skipped by the update phase. Identities are
//! small integers that the embedding assigns, one per system type; removal
//! and wake-up scan the slots, which is fine at the usual system counts,
//! and what matters — the registration order of the remaining slots — is
//! preserved exactly.

use vstd::prelude::*;

verus! {

/// One registered system: its identity and its awake flag.
#[derive(Clone, Copy, PartialEq, Eq, Structural, Debug)]
pub struct SystemSlot {
    pub id: u64,
    pub is_awake: bool,
}

/// Whether position `j` holds the first slot with identity `id`.
pub open spec fn is_first_with(slots: Seq<SystemSlot>, j: int, id: u64) -> bool {
    &&& 0 <= j < slots.len()
    &&& slots[j].id == id
    &&& forall|j2: int| 0 <= j2 < j ==> (#[trigger] slots[j2]).id != id
}

/// An ordered collection of system slots.
pub struct SystemMapper {
    slots: Vec<SystemSlot>,
}

impl SystemMapper {
    /// The registered slots, in registration order.
    pub closed spec fn slots_of(self) -> Seq<SystemSlot> {
        self.slots@
    }

    /// Creates an empty collection.
    pub fn new() -> (r: SystemMapper)
        ensures
            r.slots_of() == Seq::<SystemSlot>::empty(),
    {
        SystemMapper { slots: Vec::new() }
    }

    /// The number of registered slots.
    pub fn len(&self) -> (r: usize)
        ensures
            r == self.slots_of().len(),
    {
        self.slots.len()
    }

    /// Returns the slot at a position, in registration order.
    pub fn slot_at(&self, k: usize) -> (r: SystemSlot)
        requires
            k < self.slots_of().len(),
        ensures
            r == self.slots_of()[k as int],
    {
        self.slots[k]
    }

    /// Registers a system behind every existing one; it starts awake.
    pub fn insert(&mut self, id: u64)
        ensures
            final(self).slots_of() == old(self).slots_of().push(
                SystemSlot { id, is_awake: true },
            ),
    {
        self.slots.push(SystemSlot { id, is_awake: true });
    }

    /// Removes every slot with the given identity, keeping the order of the
    /// remaining slots.
    pub fn remove(&mut self, id: u64)
        ensures
            final(self).slots_of() == old(self).slots_of().filter(
                |s: SystemSlot| s.id != id,
            ),
    {
        let ghost pred = |s: SystemSlot| s.id != id;
        let mut kept: Vec<SystemSlot> = Vec::new();
        proof {
            assert(old(self).slots_of().take(0).filter(pred) =~= Seq::<SystemSlot>::empty());
        }
        let mut k: usize = 0;
        while k < self.slots.len()
            invariant
                self == old(self),
                k <= self.slots_of().len(),
                kept@ == old(self).slots_of().take(k as int).filter(pred),
                pred == (|s: SystemSlot| s.id != id),
            decreases self.slots_of().len() - k,
        {
            let slot = self.slots[k];
            proof {
                let pre = old(self).slots_of().take(k as int);
                let cur = old(self).slots_of().take(k + 1);
                assert(cur.drop_last() =~= pre);
                assert(cur.last() == slot);
                reveal(Seq::filter);
                assert(cur.filter(pred) == if pred(slot) {
                    pre.filter(pred).push(slot)
                } else {
                    pre.filter(pred)
                });
            }
            if slot.id != id {
                kept.push(slot);
            }
            k += 1;
        }
        proof {
            assert(old(self).slots_of().take(self.slots_of().len() as int) =~= old(
                self,
            ).slots_of());
        }
        self.slots = kept;
    }

    /// Wakes the first system with the given identity: updates resume.
    pub fn wake_up(&mut self, id: u64)
        ensures
            forall|j: int|
                0 <= j < old(self).slots_of().len() ==> #[trigger] final(self).slots_of()[j] == (
                if is_first_with(old(self).slots_of(), j, id) {
                    SystemSlot { is_awake: true, ..old(self).slots_of()[j] }
                } else {
                    old(self).slots_of()[j]
                }),
            final(self).slots_of().len() == old(self).slots_of().len(),
    {
        self.set_awake(id, true);
    }

    /// Puts the first system with the given identity to sleep: it keeps
    /// receiving notifications, but updates stop.
    pub fn put_to_sleep(&mut self, id: u64)
        ensures
            forall|j: int|
                0 <= j < old(self).slots_of().len() ==> #[trigger] final(self).slots_of()[j] == (
                if is_first_with(old(self).slots_of(), j, id) {
                    SystemSlot { is_awake: false, ..old(self).slots_of()[j] }
                } else {
                    old(self).slots_of()[j]
                }),
            final(self).slots_of().len() == old(self).slots_of().len(),
    {
        self.set_awake(id, false);
    }

    /// Sets the awake flag of the first slot with the given identity.
    fn set_awake(&mut self, id: u64, is_awake: bool)
        ensures
            forall|j: int|
                0 <= j < old(self).slots_of().len() ==> #[trigger] final(self).slots_of()[j] == (
                if is_first_with(old(self).slots_of(), j, id) {
                    SystemSlot { is_awake, ..old(self).slots_of()[j] }
                } else {
                    old(self).slots_of()[j]
                }),
            final(self).slots_of().len() == old(self).slots_of().len(),
    {
        let mut k: usize = 0;
        while k < self.slots.len()
            invariant
                self == old(self),
                k <= self.slots_of().len(),
                forall|j: int| 0 <= j < k ==> (#[trigger] self.slots_of()[j]).id != id,
            decreases self.slots_of().len() - k,
        {
            if self.slots[k].id == id {
                proof {
                    assert(is_first_with(self.slots_of(), k as int, id));
                }
                let updated = SystemSlot { id, is_awake };
                self.slots.set(k, updated);
                proof {
                    assert forall|j: int|
                        0 <= j < old(self).slots_of().len() implies #[trigger] self.slots_of()[j]
                        == (if is_first_with(old(self).slots_of(), j, id) {
                        SystemSlot { is_awake, ..old(self).slots_of()[j] }
                    } else {
                        old(self).slots_of()[j]
                    }) by {
                        if j != k {
                            assert(self.slots_of()[j] == old(self).slots_of()[j]);
                            if is_first_with(old(self).slots_of(), j, id) {
                                if j < k {
                                    assert(old(self).slots_of()[j].id != id);
                                } else {
                                    assert(old(self).slots_of()[k as int].id != id);
                                }
                            }
                        }
                    }
                }
                return ;
            }
            k += 1;
        }
    }
}

} // verus!
