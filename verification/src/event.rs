//! The queue of structural change notifications.
//!
//! Mutations record a `Changed` or `Removed` event per entity instead of
//! notifying systems at once; the batch is drained at the next safe point.
//! Repeated changes of one entity coalesce into a single `Changed` event, and
//! once an entity's removal is queued, further changes of it are ignored. A
//! `Changed` event queued before a `Removed` event of the same entity is kept
//! and delivered first, so systems observe the final live state of an entity
//! before they see its removal.

use vstd::prelude::*;
use vstd::pervasive::arbitrary;
use crate::bitset::BitSet;
use crate::entity::{Entity, MetaEntity};

verus! {

/// Observes entity events as a batch is delivered.
///
/// An observer carries an abstract log of the notifications it has
/// received, oldest first, each carrying the record exactly as it was
/// handed over; every notification appends one entry. Delivery functions
/// promise, over this log, that each recorded event reaches the observer,
/// in insertion order, before any cleanup touches the entity.
pub trait Observer<Cfg = ()> {
    /// The observer's own well-formedness; every notification keeps it. An
    /// observer with verified state says here what holds of it; the default
    /// claims nothing.
    open spec fn inv(&self) -> bool {
        true
    }

    /// The observer's configuration — a view's filter, say. Notifications
    /// never change it.
    open spec fn config(&self) -> Cfg {
        arbitrary()
    }

    /// The notifications received so far, oldest first, each with the
    /// record as it was delivered.
    open spec fn received(&self) -> Seq<(Kind, MetaEntity)> {
        arbitrary()
    }

    /// Called for each `Changed` event, with the entity's live record.
    fn notify_changed(&mut self, mentity: &MetaEntity)
        requires
            old(self).inv(),
        ensures
            final(self).inv(),
            final(self).config() == old(self).config(),
            final(self).received() == old(self).received().push((Kind::Changed, *mentity)),
    ;

    /// Called for each `Removed` event, with the entity's final live
    /// record, before the entity is cleaned up.
    fn notify_removed(&mut self, mentity: &MetaEntity)
        requires
            old(self).inv(),
        ensures
            final(self).inv(),
            final(self).config() == old(self).config(),
            final(self).received() == old(self).received().push((Kind::Removed, *mentity)),
    ;
}

/// The kinds of entity events.
#[derive(Clone, Copy, PartialEq, Eq, Structural, Debug)]
pub enum Kind {
    Changed,
    Removed,
}

/// An event: what happened, and to which entity.
pub type Event = (Kind, Entity);

/// A queue of entity events, deduplicating repeated changes.
pub struct Queue {
    changed_set: BitSet,
    removed_set: BitSet,
    events: Vec<Event>,
}

impl Queue {
    /// The recorded events, in insertion order.
    pub closed spec fn pending(self) -> Seq<Event> {
        self.events@
    }

    /// Whether a `Changed` event for `e` is pending.
    pub closed spec fn changed_pending(self, e: int) -> bool {
        self.changed_set.has(e)
    }

    /// Whether a `Removed` event for `e` is pending.
    pub closed spec fn removed_pending(self, e: int) -> bool {
        self.removed_set.has(e)
    }

    /// Well-formed: the dedup marks match the recorded events, no entity has
    /// two events of one kind, and an entity's `Changed` event comes before
    /// its `Removed` event.
    pub open spec fn wf(self) -> bool {
        &&& forall|e: int|
            #[trigger] self.changed_pending(e) <==> exists|i: int|
                0 <= i < self.pending().len() && #[trigger] self.pending()[i] === (
                Kind::Changed,
                e as usize,
                ) && e == self.pending()[i].1
        &&& forall|e: int|
            #[trigger] self.removed_pending(e) <==> exists|i: int|
                0 <= i < self.pending().len() && #[trigger] self.pending()[i] === (
                Kind::Removed,
                e as usize,
                ) && e == self.pending()[i].1
        &&& forall|i: int, j: int|
            #![trigger self.pending()[i], self.pending()[j]]
            0 <= i < j < self.pending().len() && self.pending()[i].1 == self.pending()[j].1
                ==> self.pending()[i].0 == Kind::Changed && self.pending()[j].0 == Kind::Removed
    }

    /// Creates an empty queue.
    pub fn new() -> (r: Queue)
        ensures
            r.wf(),
            r.pending() == Seq::<Event>::empty(),
            forall|e: int| !r.changed_pending(e) && !r.removed_pending(e),
    {
        Queue { changed_set: BitSet::new(), removed_set: BitSet::new(), events: Vec::new() }
    }

    /// Records the change of an entity.
    ///
    /// The event is queued once: repeats coalesce, and an entity already
    /// pending removal records nothing.
    pub fn changed(&mut self, entity: Entity)
        requires
            old(self).wf(),
        ensures
            final(self).wf(),
            old(self).changed_pending(entity as int) || old(self).removed_pending(entity as int)
                ==> *final(self) == *old(self),
            !(old(self).changed_pending(entity as int) || old(self).removed_pending(
                entity as int,
            )) ==> {
                &&& final(self).pending() == old(self).pending().push((Kind::Changed, entity))
                &&& forall|e: int|
                    #[trigger] final(self).changed_pending(e) <==> (old(self).changed_pending(e)
                        || e == entity)
                &&& forall|e: int|
                    #[trigger] final(self).removed_pending(e) <==> old(self).removed_pending(e)
            },
    {
        if !self.changed_set.contains(entity) && !self.removed_set.contains(entity) {
            self.changed_set.insert(entity);
            self.events.push((Kind::Changed, entity));
            proof {
                let n = self.pending().len() - 1;
                assert(self.pending()[n] === (Kind::Changed, entity));
                assert forall|e: int| #[trigger]
                    self.changed_pending(e) <==> exists|i: int|
                        0 <= i < self.pending().len() && #[trigger] self.pending()[i] === (
                        Kind::Changed,
                        e as usize,
                        ) && e == self.pending()[i].1 by {
                    if self.changed_pending(e) {
                        if e == entity as int {
                            assert(self.pending()[n] === (Kind::Changed, e as usize) && e
                                == self.pending()[n].1);
                        } else {
                            assert(old(self).changed_pending(e));
                            let i = choose|i: int|
                                0 <= i < old(self).pending().len() && #[trigger] old(
                                    self,
                                ).pending()[i] === (Kind::Changed, e as usize) && e == old(
                                    self,
                                ).pending()[i].1;
                            assert(self.pending()[i] === (Kind::Changed, e as usize));
                        }
                    } else {
                        assert(!old(self).changed_pending(e));
                        assert forall|i: int|
                            0 <= i < self.pending().len() implies !(self.pending()[i] === (
                            Kind::Changed,
                            e as usize,
                        ) && e == self.pending()[i].1) by {
                            if i < old(self).pending().len() {
                                assert(old(self).pending()[i] == self.pending()[i]);
                                if old(self).pending()[i] === (Kind::Changed, e as usize) && e
                                    == old(self).pending()[i].1 {
                                    assert(old(self).changed_pending(e));
                                }
                            }
                        }
                    }
                }
                assert forall|e: int| #[trigger]
                    self.removed_pending(e) <==> exists|i: int|
                        0 <= i < self.pending().len() && #[trigger] self.pending()[i] === (
                        Kind::Removed,
                        e as usize,
                        ) && e == self.pending()[i].1 by {
                    if self.removed_pending(e) {
                        assert(old(self).removed_pending(e));
                        let i = choose|i: int|
                            0 <= i < old(self).pending().len() && #[trigger] old(
                                self,
                            ).pending()[i] === (Kind::Removed, e as usize) && e == old(
                                self,
                            ).pending()[i].1;
                        assert(self.pending()[i] === (Kind::Removed, e as usize));
                    } else {
                        assert(!old(self).removed_pending(e));
                        assert forall|i: int|
                            0 <= i < self.pending().len() implies !(self.pending()[i] === (
                            Kind::Removed,
                            e as usize,
                        ) && e == self.pending()[i].1) by {
                            if i < old(self).pending().len() {
                                assert(old(self).pending()[i] == self.pending()[i]);
                                if old(self).pending()[i] === (Kind::Removed, e as usize) && e
                                    == old(self).pending()[i].1 {
                                    assert(old(self).removed_pending(e));
                                }
                            }
                        }
                    }
                }
                assert forall|i: int, j: int|
                    #![trigger self.pending()[i], self.pending()[j]]
                    0 <= i < j < self.pending().len() && self.pending()[i].1
                        == self.pending()[j].1 implies self.pending()[i].0 == Kind::Changed
                    && self.pending()[j].0 == Kind::Removed by {
                    if j == n {
                        assert(old(self).pending()[i] == self.pending()[i]);
                        assert(!old(self).changed_pending(entity as int));
                        assert(!old(self).removed_pending(entity as int));
                        if self.pending()[i].1 == entity {
                            if old(self).pending()[i].0 == Kind::Changed {
                                assert(old(self).pending()[i] === (Kind::Changed, entity));
                                assert(old(self).changed_pending(entity as int));
                            } else {
                                assert(old(self).pending()[i] === (Kind::Removed, entity));
                                assert(old(self).removed_pending(entity as int));
                            }
                            assert(false);
                        }
                    }
                }
            }
        }
    }

    /// Records the removal of an entity, once.
    ///
    /// An already queued `Changed` event for the entity is not retracted; it
    /// is delivered before the `Removed` event in the same batch.
    pub fn removed(&mut self, entity: Entity)
        requires
            old(self).wf(),
        ensures
            final(self).wf(),
            old(self).removed_pending(entity as int) ==> *final(self) == *old(self),
            !old(self).removed_pending(entity as int) ==> {
                &&& final(self).pending() == old(self).pending().push((Kind::Removed, entity))
                &&& forall|e: int|
                    #[trigger] final(self).removed_pending(e) <==> (old(self).removed_pending(e)
                        || e == entity)
                &&& forall|e: int|
                    #[trigger] final(self).changed_pending(e) <==> old(self).changed_pending(e)
            },
    {
        if !self.removed_set.contains(entity) {
            self.removed_set.insert(entity);
            self.events.push((Kind::Removed, entity));
            proof {
                let n = self.pending().len() - 1;
                assert(self.pending()[n] === (Kind::Removed, entity));
                assert forall|e: int| #[trigger]
                    self.removed_pending(e) <==> exists|i: int|
                        0 <= i < self.pending().len() && #[trigger] self.pending()[i] === (
                        Kind::Removed,
                        e as usize,
                        ) && e == self.pending()[i].1 by {
                    if self.removed_pending(e) {
                        if e == entity as int {
                            assert(self.pending()[n] === (Kind::Removed, e as usize) && e
                                == self.pending()[n].1);
                        } else {
                            assert(old(self).removed_pending(e));
                            let i = choose|i: int|
                                0 <= i < old(self).pending().len() && #[trigger] old(
                                    self,
                                ).pending()[i] === (Kind::Removed, e as usize) && e == old(
                                    self,
                                ).pending()[i].1;
                            assert(self.pending()[i] === (Kind::Removed, e as usize));
                        }
                    } else {
                        assert(!old(self).removed_pending(e));
                        assert forall|i: int|
                            0 <= i < self.pending().len() implies !(self.pending()[i] === (
                            Kind::Removed,
                            e as usize,
                        ) && e == self.pending()[i].1) by {
                            if i < old(self).pending().len() {
                                assert(old(self).pending()[i] == self.pending()[i]);
                                if old(self).pending()[i] === (Kind::Removed, e as usize) && e
                                    == old(self).pending()[i].1 {
                                    assert(old(self).removed_pending(e));
                                }
                            }
                        }
                    }
                }
                assert forall|e: int| #[trigger]
                    self.changed_pending(e) <==> exists|i: int|
                        0 <= i < self.pending().len() && #[trigger] self.pending()[i] === (
                        Kind::Changed,
                        e as usize,
                        ) && e == self.pending()[i].1 by {
                    if self.changed_pending(e) {
                        assert(old(self).changed_pending(e));
                        let i = choose|i: int|
                            0 <= i < old(self).pending().len() && #[trigger] old(
                                self,
                            ).pending()[i] === (Kind::Changed, e as usize) && e == old(
                                self,
                            ).pending()[i].1;
                        assert(self.pending()[i] === (Kind::Changed, e as usize));
                    } else {
                        assert(!old(self).changed_pending(e));
                        assert forall|i: int|
                            0 <= i < self.pending().len() implies !(self.pending()[i] === (
                            Kind::Changed,
                            e as usize,
                        ) && e == self.pending()[i].1) by {
                            if i < old(self).pending().len() {
                                assert(old(self).pending()[i] == self.pending()[i]);
                                if old(self).pending()[i] === (Kind::Changed, e as usize) && e
                                    == old(self).pending()[i].1 {
                                    assert(old(self).changed_pending(e));
                                }
                            }
                        }
                    }
                }
                assert forall|i: int, j: int|
                    #![trigger self.pending()[i], self.pending()[j]]
                    0 <= i < j < self.pending().len() && self.pending()[i].1
                        == self.pending()[j].1 implies self.pending()[i].0 == Kind::Changed
                    && self.pending()[j].0 == Kind::Removed by {
                    if j == n {
                        assert(old(self).pending()[i] == self.pending()[i]);
                        assert(!old(self).removed_pending(entity as int));
                        if self.pending()[i].1 == entity {
                            if old(self).pending()[i].0 == Kind::Removed {
                                assert(old(self).pending()[i] === (Kind::Removed, entity));
                                assert(old(self).removed_pending(entity as int));
                                assert(false);
                            } else {
                                assert(old(self).pending()[i] === (Kind::Changed, entity));
                            }
                        }
                    }
                }
            }
        }
    }

    /// Drains all recorded events, in insertion order, and clears the dedup
    /// state. A drain is one-shot: until new events are recorded, a second
    /// drain yields an empty batch.
    pub fn drain(&mut self) -> (r: Vec<Event>)
        requires
            old(self).wf(),
        ensures
            final(self).wf(),
            r@ == old(self).pending(),
            final(self).pending() == Seq::<Event>::empty(),
            forall|e: int| !final(self).changed_pending(e) && !final(self).removed_pending(e),
    {
        self.changed_set.clear();
        self.removed_set.clear();
        let mut drained: Vec<Event> = Vec::new();
        core::mem::swap(&mut drained, &mut self.events);
        assert(self.pending() =~= Seq::<Event>::empty());
        drained
    }
}

/// Event dedup: a well-formed queue never holds two `Changed` events for one
/// entity, so recording a change many times yields exactly one event.
pub proof fn lemma_event_dedup(q: Queue, i: int, j: int, e: Entity)
    requires
        q.wf(),
        0 <= i < q.pending().len(),
        0 <= j < q.pending().len(),
        q.pending()[i] === (Kind::Changed, e),
        q.pending()[j] === (Kind::Changed, e),
    ensures
        i == j,
{
}

/// Event ordering: within one batch, an entity's `Changed` event always
/// precedes its `Removed` event, so systems observe the final live state of
/// an entity before they see its removal.
pub proof fn lemma_changed_precedes_removed(q: Queue, i: int, j: int, e: Entity)
    requires
        q.wf(),
        0 <= i < q.pending().len(),
        0 <= j < q.pending().len(),
        q.pending()[i] === (Kind::Changed, e),
        q.pending()[j] === (Kind::Removed, e),
    ensures
        i < j,
{
    if j < i {
        assert(q.pending()[j].0 == Kind::Changed && q.pending()[i].0 == Kind::Removed);
    }
    if i == j {
        assert(q.pending()[i].0 == Kind::Changed && q.pending()[i].0 == Kind::Removed);
    }
}

} // verus!
