//! The authoritative entity state and the manager that mutates it.
//!
//! A [`MetaEntityMap`] owns the pool, the live records and the event queue;
//! every mutation records an event. The [`EntityMapper`] composes it with
//! the component, group and tag stores behind one mutation API and keeps
//! them consistent: a record's component bit is set exactly while the store
//! holds a value for it, and group and tag bindings name live entities that
//! carry them. Removal is deferred: `remove_entity` only queues the event,
//! and the record is cleaned up and recycled during notification, after
//! every observer has seen it.

use vstd::prelude::*;
use vstd::pervasive::unreached;
use crate::component::ComponentMapper;
use crate::entity::{Entity, MetaEntity};
use crate::group::GroupMap;
use crate::tag::TagMap;
use crate::event::{Event, Kind, Observer, Queue};
use crate::pool::Pool;
use crate::vecmap::VecMap;

verus! {

/// The map of live entity records, with the pool they are drawn from and
/// the queue of events recorded against them.
pub struct MetaEntityMap {
    pool: Pool,
    mentities: VecMap<MetaEntity>,
    events: Queue,
}

impl MetaEntityMap {
    /// Whether entity `e` currently has a live record.
    pub closed spec fn live(self, e: int) -> bool {
        self.mentities.has_key(e)
    }

    /// The live record of entity `e`.
    pub closed spec fn record_of(self, e: int) -> MetaEntity
        recommends
            self.live(e),
    {
        self.mentities.spec_get(e)
    }

    /// The recorded events, in insertion order.
    pub closed spec fn pending_events(self) -> Seq<Event> {
        self.events.pending()
    }

    /// Whether a `Changed` event for `e` is pending.
    pub closed spec fn changed_pending(self, e: int) -> bool {
        self.events.changed_pending(e)
    }

    /// Whether a `Removed` event for `e` is pending.
    pub closed spec fn removed_pending(self, e: int) -> bool {
        self.events.removed_pending(e)
    }

    /// The identifier the next fresh record will get.
    pub closed spec fn fresh_id(self) -> int {
        self.pool.fresh_id()
    }

    /// Whether `id` sits in the pool, eligible for reuse.
    pub closed spec fn id_stocked(self, id: int) -> bool {
        self.pool.stocks_id(id)
    }

    /// Well-formed: the pool and the queue are well-formed, records carry
    /// their own identifier, identifiers are either live or stocked but
    /// never both and never beyond the next fresh one, and every pending
    /// event names a live entity.
    pub closed spec fn wf(self) -> bool {
        &&& self.pool.wf()
        &&& self.events.wf()
        &&& forall|e: int|
            #[trigger] self.live(e) ==> self.record_of(e).entity == e && self.record_of(e).wf()
        &&& forall|e: int| #[trigger] self.live(e) ==> 0 <= e < self.fresh_id()
        &&& forall|e: int| #[trigger] self.live(e) ==> !self.id_stocked(e)
        &&& forall|i: int|
            0 <= i < self.pending_events().len() ==> self.live(
                #[trigger] self.pending_events()[i].1 as int,
            )
    }

    /// Creates an empty map.
    pub fn new() -> (r: MetaEntityMap)
        ensures
            r.wf(),
            forall|e: int| !r.live(e),
            forall|id: int| !r.id_stocked(id),
            r.pending_events() == Seq::<Event>::empty(),
            forall|e: int| !r.changed_pending(e) && !r.removed_pending(e),
            r.fresh_id() == 0,
    {
        MetaEntityMap { pool: Pool::new(), mentities: VecMap::new(), events: Queue::new() }
    }

    /// Creates an entity: draws a reset record from the pool, makes it
    /// live, and records a `Changed` event for it.
    pub fn create(&mut self) -> (r: Entity)
        requires
            old(self).wf(),
            old(self).fresh_id() < usize::MAX,
        ensures
            final(self).wf(),
            !old(self).live(r as int),
            forall|e: int| #[trigger] final(self).live(e) <==> (old(self).live(e) || e == r),
            final(self).record_of(r as int).is_reset(),
            final(self).record_of(r as int).entity == r,
            forall|e: int|
                e != r && old(self).live(e) ==> #[trigger] final(self).record_of(e) == old(self).record_of(e),
            final(self).pending_events() == old(self).pending_events().push((Kind::Changed, r)),
            forall|e: int| #[trigger]
                final(self).changed_pending(e) <==> (old(self).changed_pending(e) || e == r),
            forall|e: int| #[trigger]
                final(self).removed_pending(e) <==> old(self).removed_pending(e),
            forall|id: int| #[trigger]
                final(self).id_stocked(id) <==> (old(self).id_stocked(id) && id != r),
            (exists|id: int| old(self).id_stocked(id)) ==> old(self).id_stocked(r as int),
            !(exists|id: int| old(self).id_stocked(id)) ==> r == old(self).fresh_id(),
            final(self).fresh_id() == if old(self).id_stocked(r as int) {
                old(self).fresh_id()
            } else {
                old(self).fresh_id() + 1
            },
    {
        proof {
            if exists|id: int| old(self).id_stocked(id) {
                let id = choose|id: int| old(self).id_stocked(id);
                let k = choose|k: int|
                    0 <= k < old(self).pool.records().len()
                        && #[trigger] old(self).pool.records()[k].entity == id;
                assert(old(self).pool.records().len() > 0);
            }
            if old(self).pool.records().len() > 0 {
                let last = old(self).pool.records().len() - 1;
                assert(old(self).pool.records()[last].entity == old(self).pool.records()[
                    last
                ].entity);
                assert(old(self).id_stocked(old(self).pool.records()[last].entity as int));
            }
        }
        let meta_entity = self.pool.get();
        let entity = meta_entity.entity;
        proof {
            assert(!old(self).live(entity as int));
            assert(self.events == old(self).events);
            assert(!self.events.changed_pending(entity as int)) by {
                if self.events.changed_pending(entity as int) {
                    let i = choose|i: int|
                        0 <= i < self.events.pending().len() && #[trigger] self.events.pending()[i]
                            === (Kind::Changed, entity) && entity as int == self.events.pending()[i].1;
                    assert(old(self).pending_events()[i] === (Kind::Changed, entity));
                    assert(old(self).live(old(self).pending_events()[i].1 as int));
                }
            }
            assert(!self.events.removed_pending(entity as int)) by {
                if self.events.removed_pending(entity as int) {
                    let i = choose|i: int|
                        0 <= i < self.events.pending().len() && #[trigger] self.events.pending()[i]
                            === (Kind::Removed, entity) && entity as int == self.events.pending()[i].1;
                    assert(old(self).pending_events()[i] === (Kind::Removed, entity));
                    assert(old(self).live(old(self).pending_events()[i].1 as int));
                }
            }
        }
        self.mentities.insert(entity, meta_entity);
        self.events.changed(entity);
        proof {
            assert(self.pending_events() == old(self).pending_events().push((
                Kind::Changed,
                entity,
            )));
            assert forall|i: int|
                0 <= i < self.pending_events().len() implies self.live(
                #[trigger] self.pending_events()[i].1 as int,
            ) by {
                if i < self.pending_events().len() - 1 {
                    assert(old(self).pending_events()[i] == self.pending_events()[i]);
                    assert(old(self).live(old(self).pending_events()[i].1 as int));
                } else {
                    assert(self.pending_events()[i].1 == entity);
                }
            }
            assert forall|e: int| #[trigger] self.live(e) implies self.record_of(e).entity == e
                && self.record_of(e).wf() && 0 <= e < self.fresh_id() && !self.id_stocked(e) by {
                if e != entity as int {
                    assert(old(self).live(e));
                    assert(self.record_of(e) == old(self).record_of(e));
                }
            }
        }
        entity
    }

    /// Queues the removal of a live entity. The record stays live until the
    /// events are drained; a removal already pending is not queued twice.
    pub fn remove(&mut self, entity: Entity)
        requires
            old(self).wf(),
            old(self).live(entity as int),
        ensures
            final(self).wf(),
            forall|e: int| #[trigger] final(self).live(e) <==> old(self).live(e),
            forall|e: int|
                old(self).live(e) ==> #[trigger] final(self).record_of(e) == old(self).record_of(
                    e,
                ),
            forall|id: int| #[trigger] final(self).id_stocked(id) <==> old(self).id_stocked(id),
            final(self).fresh_id() == old(self).fresh_id(),
            old(self).removed_pending(entity as int) ==> final(self).pending_events() == old(self).pending_events(),
            !old(self).removed_pending(entity as int) ==> final(self).pending_events() == old(self).pending_events().push((Kind::Removed, entity)),
            forall|e: int| #[trigger]
                final(self).removed_pending(e) <==> (old(self).removed_pending(e) || e == entity),
            forall|e: int| #[trigger]
                final(self).changed_pending(e) <==> old(self).changed_pending(e),
    {
        self.events.removed(entity);
        proof {
            assert forall|i: int|
                0 <= i < self.pending_events().len() implies self.live(
                #[trigger] self.pending_events()[i].1 as int,
            ) by {
                if !old(self).removed_pending(entity as int) && i == self.pending_events().len()
                    - 1 {
                    assert(self.pending_events()[i].1 == entity);
                } else {
                    assert(old(self).pending_events()[i] == self.pending_events()[i]);
                    assert(old(self).live(old(self).pending_events()[i].1 as int));
                }
            }
            assert forall|e: int| #[trigger] self.live(e) implies self.record_of(e).entity == e
                && self.record_of(e).wf() && 0 <= e < self.fresh_id() && !self.id_stocked(e) by {
                assert(old(self).live(e));
                assert(self.record_of(e) == old(self).record_of(e));
            }
        }
    }

    /// Enables or disables a live entity, recording a `Changed` event.
    pub fn set_awake(&mut self, entity: Entity, awake: bool)
        requires
            old(self).wf(),
            old(self).live(entity as int),
        ensures
            final(self).wf(),
            forall|e: int| #[trigger] final(self).live(e) <==> old(self).live(e),
            final(self).record_of(entity as int) == (MetaEntity {
                is_awake: awake,
                ..old(self).record_of(entity as int)
            }),
            forall|e: int|
                e != entity && old(self).live(e) ==> #[trigger] final(self).record_of(e) == old(self).record_of(e),
            forall|id: int| #[trigger] final(self).id_stocked(id) <==> old(self).id_stocked(id),
            final(self).fresh_id() == old(self).fresh_id(),
            final(self).events_changed_step(*old(self), *final(self), entity),
    {
        self.mark_changed(entity);
        proof {
            assert(self.live(entity as int));
            assert(self.record_of(entity as int) == old(self).record_of(entity as int));
        }
        let ghost mid = *self;
        let record = self.mentities.get_mut(entity);
        record.is_awake = awake;
        proof {
            assert(self.events == mid.events);
            assert(self.pool == mid.pool);
            assert forall|e: int| #[trigger] self.live(e) <==> old(self).live(e) by {
                assert(self.mentities.has_key(e) <==> mid.mentities.has_key(e));
                assert(mid.live(e) <==> old(self).live(e));
            }
            assert forall|e: int|
                e != entity && old(self).live(e) implies #[trigger] self.record_of(e) == old(self).record_of(e) by {
                assert(mid.live(e));
                assert(self.mentities.spec_get(e) == mid.mentities.spec_get(e));
                assert(mid.record_of(e) == old(self).record_of(e));
            }
            assert forall|e: int| #[trigger] self.live(e) implies self.record_of(e).entity == e
                && self.record_of(e).wf() by {
                assert(mid.live(e));
                if e != entity as int {
                    assert(self.record_of(e) == mid.record_of(e));
                }
            }
            assert forall|i: int|
                0 <= i < self.pending_events().len() implies self.live(
                #[trigger] self.pending_events()[i].1 as int,
            ) by {
                assert(mid.live(mid.pending_events()[i].1 as int));
            }
            assert forall|e: int| #[trigger] self.live(e) implies 0 <= e < self.fresh_id()
                && !self.id_stocked(e) by {
                assert(mid.live(e));
            }
            assert forall|id: int| #[trigger] self.id_stocked(id) <==> old(self).id_stocked(
                id,
            ) by {
                assert(self.pool == mid.pool);
                assert(mid.id_stocked(id) <==> old(self).id_stocked(id));
            }
            assert(self.pending_events() == mid.pending_events());
            assert forall|e: int| #[trigger] self.changed_pending(e) <==> mid.changed_pending(
                e,
            ) by {}
            assert forall|e: int| #[trigger] self.removed_pending(e) <==> mid.removed_pending(
                e,
            ) by {}
            assert(self.events_changed_step(*old(self), *self, entity));
        }
    }

    /// How one recorded change relates the queue before to the queue after.
    pub open spec fn events_changed_step(
        self,
        pre: MetaEntityMap,
        post: MetaEntityMap,
        entity: Entity,
    ) -> bool {
        &&& (pre.changed_pending(entity as int) || pre.removed_pending(entity as int))
            ==> post.pending_events() == pre.pending_events()
        &&& !(pre.changed_pending(entity as int) || pre.removed_pending(entity as int))
            ==> post.pending_events() == pre.pending_events().push((Kind::Changed, entity))
        &&& forall|e: int| #[trigger]
            post.changed_pending(e) <==> (pre.changed_pending(e) || (e == entity && !pre.removed_pending(entity as int)))
        &&& forall|e: int| #[trigger] post.removed_pending(e) <==> pre.removed_pending(e)
    }

    /// Records a `Changed` event for a live entity.
    fn mark_changed(&mut self, entity: Entity)
        requires
            old(self).wf(),
            old(self).live(entity as int),
        ensures
            final(self).wf(),
            forall|e: int| #[trigger] final(self).live(e) <==> old(self).live(e),
            forall|e: int|
                old(self).live(e) ==> #[trigger] final(self).record_of(e) == old(self).record_of(
                    e,
                ),
            forall|id: int| #[trigger] final(self).id_stocked(id) <==> old(self).id_stocked(id),
            final(self).fresh_id() == old(self).fresh_id(),
            final(self).events_changed_step(*old(self), *final(self), entity),
    {
        self.events.changed(entity);
        proof {
            assert forall|i: int|
                0 <= i < self.pending_events().len() implies self.live(
                #[trigger] self.pending_events()[i].1 as int,
            ) by {
                if !(old(self).changed_pending(entity as int) || old(self).removed_pending(
                    entity as int,
                )) && i == self.pending_events().len() - 1 {
                    assert(self.pending_events()[i].1 == entity);
                } else {
                    assert(old(self).pending_events()[i] == self.pending_events()[i]);
                    assert(old(self).live(old(self).pending_events()[i].1 as int));
                }
            }
            assert forall|e: int| #[trigger] self.live(e) implies self.record_of(e).entity == e
                && self.record_of(e).wf() && 0 <= e < self.fresh_id() && !self.id_stocked(e) by {
                assert(old(self).live(e));
                assert(self.record_of(e) == old(self).record_of(e));
            }
        }
    }

    /// Returns a reference to the live record of an entity. Asking for an
    /// entity with no record is a programmer error and fails loudly.
    pub fn get(&self, entity: Entity) -> (r: &MetaEntity)
        requires
            self.live(entity as int),
        ensures
            *r == self.record_of(entity as int),
    {
        match self.mentities.get(entity) {
            Some(m) => m,
            None => unreached(),
        }
    }

    /// Returns a mutable reference to the live record of an entity,
    /// recording a `Changed` event for it. Asking for an entity with no
    /// record is a programmer error and fails loudly.
    ///
    /// The map stays well-formed provided the caller leaves the record's
    /// identifier in place and its group set free of duplicates.
    pub fn get_mut(&mut self, entity: Entity) -> (r: &mut MetaEntity)
        requires
            old(self).wf(),
            old(self).live(entity as int),
        ensures
            *r == old(self).record_of(entity as int),
            forall|e: int| #[trigger] final(self).live(e) <==> old(self).live(e),
            final(self).record_of(entity as int) == *final(r),
            forall|e: int|
                e != entity && old(self).live(e) ==> #[trigger] final(self).record_of(e) == old(self).record_of(e),
            forall|id: int| #[trigger] final(self).id_stocked(id) <==> old(self).id_stocked(id),
            final(self).fresh_id() == old(self).fresh_id(),
            final(self).events_changed_step(*old(self), *final(self), entity),
            (final(r).entity == entity && final(r).wf()) ==> final(self).wf(),
    {
        self.mark_changed(entity);
        proof {
            assert(self.live(entity as int));
            assert(self.record_of(entity as int) == old(self).record_of(entity as int));
            assert(self.wf());
            assert(self.pool.wf());
            assert(self.events.wf());
            assert forall|e: int| #[trigger] self.mentities.has_key(e) <==> old(self).live(e) by {
                assert(self.live(e) <==> old(self).live(e));
            }
            assert forall|e: int|
                e != entity && old(self).live(e) implies #[trigger] self.mentities.spec_get(e)
                    == old(self).record_of(e) by {
                assert(self.live(e));
                assert(self.record_of(e) == old(self).record_of(e));
            }
            assert forall|e: int|
                self.mentities.has_key(e) && e != entity implies (#[trigger] self.mentities
                    .spec_get(e)).entity == e && self.mentities.spec_get(e).wf() by {
                assert(self.live(e));
                assert(self.record_of(e).entity == e && self.record_of(e).wf());
            }
            assert forall|id: int| #[trigger] self.pool.stocks_id(id) <==> old(self).id_stocked(
                id,
            ) by {
                assert(self.id_stocked(id) <==> old(self).id_stocked(id));
            }
            assert(self.pool.fresh_id() == old(self).fresh_id());
            assert forall|e: int|
                self.mentities.has_key(e) implies 0 <= e < self.pool.fresh_id()
                    && !self.pool.stocks_id(e) by {
                assert(self.live(e));
            }
            assert((old(self).changed_pending(entity as int) || old(self).removed_pending(
                entity as int,
            )) ==> self.events.pending() == old(self).pending_events());
            assert(!(old(self).changed_pending(entity as int) || old(self).removed_pending(
                entity as int,
            )) ==> self.events.pending() == old(self).pending_events().push((
                Kind::Changed,
                entity,
            )));
            assert forall|e: int| #[trigger]
                self.events.changed_pending(e) <==> (old(self).changed_pending(e) || (e == entity
                    && !old(self).removed_pending(entity as int))) by {
                assert(self.changed_pending(e) <==> (old(self).changed_pending(e) || (e == entity
                    && !old(self).removed_pending(entity as int))));
            }
            assert forall|e: int| #[trigger] self.events.removed_pending(e) <==> old(self).removed_pending(e) by {
                assert(self.removed_pending(e) <==> old(self).removed_pending(e));
            }
            assert forall|i: int|
                0 <= i < self.events.pending().len() implies self.mentities.has_key(
                #[trigger] self.events.pending()[i].1 as int,
            ) by {
                assert(self.live(self.pending_events()[i].1 as int));
            }
        }
        let r = self.mentities.get_mut(entity);
        r
    }

    /// Drains the recorded events, in insertion order.
    pub fn drain(&mut self) -> (r: Vec<Event>)
        requires
            old(self).wf(),
        ensures
            final(self).wf(),
            r@ == old(self).pending_events(),
            final(self).pending_events() == Seq::<Event>::empty(),
            forall|e: int| !final(self).changed_pending(e) && !final(self).removed_pending(e),
            forall|e: int| #[trigger] final(self).live(e) <==> old(self).live(e),
            forall|e: int|
                old(self).live(e) ==> #[trigger] final(self).record_of(e) == old(self).record_of(
                    e,
                ),
            forall|id: int| #[trigger] final(self).id_stocked(id) <==> old(self).id_stocked(id),
            final(self).fresh_id() == old(self).fresh_id(),
    {
        let r = self.events.drain();
        proof {
            assert forall|e: int| #[trigger] self.live(e) implies self.record_of(e).entity == e
                && self.record_of(e).wf() && 0 <= e < self.fresh_id() && !self.id_stocked(e) by {
                assert(old(self).live(e));
                assert(self.record_of(e) == old(self).record_of(e));
            }
        }
        r
    }

    /// Releases a drained-out entity: its record leaves the map and returns
    /// to the pool, its identifier eligible for reuse. Called only while no
    /// event is pending, after the entity's removal has been delivered.
    pub fn release(&mut self, entity: Entity)
        requires
            old(self).wf(),
            old(self).live(entity as int),
            old(self).pending_events().len() == 0,
        ensures
            final(self).wf(),
            final(self).pending_events() == Seq::<Event>::empty(),
            forall|e: int| #[trigger] final(self).live(e) <==> (old(self).live(e) && e != entity),
            forall|e: int|
                e != entity && old(self).live(e) ==> #[trigger] final(self).record_of(e) == old(self).record_of(e),
            forall|id: int| #[trigger]
                final(self).id_stocked(id) <==> (old(self).id_stocked(id) || id == entity),
            final(self).fresh_id() == old(self).fresh_id(),
            forall|e: int| #[trigger] final(self).changed_pending(e) <==> old(self).changed_pending(e),
            forall|e: int| #[trigger] final(self).removed_pending(e) <==> old(self).removed_pending(e),
    {
        proof {
            assert(old(self).record_of(entity as int).entity == entity);
        }
        let record = match self.mentities.remove(entity) {
            Some(m) => m,
            None => unreached(),
        };
        self.pool.put(record);
        proof {
            assert(self.pending_events() =~= Seq::<Event>::empty());
            assert forall|e: int| #[trigger]
                self.live(e) <==> (old(self).live(e) && e != entity) by {
                assert(self.mentities.has_key(e) <==> (old(self).mentities.has_key(e) && e
                    != entity));
            }
            assert forall|e: int| #[trigger] self.live(e) implies self.record_of(e).entity == e
                && self.record_of(e).wf() && 0 <= e < self.fresh_id() && !self.id_stocked(e) by {
                assert(old(self).live(e));
                assert(self.record_of(e) == old(self).record_of(e));
            }
        }
    }
}

/// The entity manager: the authoritative records with the component, group
/// and tag stores, behind one mutation API. Every mutation records an event.
pub struct EntityMapper<C> {
    mentities: MetaEntityMap,
    stores: ComponentMapper<C>,
    groups: GroupMap,
    tags: TagMap,
}

impl<C> EntityMapper<C> {
    /// Whether entity `e` currently has a live record.
    pub closed spec fn live(self, e: int) -> bool {
        self.mentities.live(e)
    }

    /// The live record of entity `e`.
    pub closed spec fn record_of(self, e: int) -> MetaEntity
        recommends
            self.live(e),
    {
        self.mentities.record_of(e)
    }

    /// The recorded events, in insertion order.
    pub closed spec fn pending_events(self) -> Seq<Event> {
        self.mentities.pending_events()
    }

    /// Whether a `Changed` event for `e` is pending.
    pub closed spec fn changed_pending(self, e: int) -> bool {
        self.mentities.changed_pending(e)
    }

    /// Whether a `Removed` event for `e` is pending.
    pub closed spec fn removed_pending(self, e: int) -> bool {
        self.mentities.removed_pending(e)
    }

    /// The identifier the next fresh record will get.
    pub closed spec fn fresh_id(self) -> int {
        self.mentities.fresh_id()
    }

    /// Whether `id` sits in the pool, eligible for reuse.
    pub closed spec fn id_stocked(self, id: int) -> bool {
        self.mentities.id_stocked(id)
    }

    /// Whether a component of type index `i` is attached to entity `e`.
    pub closed spec fn attached(self, i: int, e: int) -> bool {
        self.stores.stored(i, e)
    }

    /// The component of type index `i` attached to entity `e`.
    pub closed spec fn component_of(self, i: int, e: int) -> C
        recommends
            self.attached(i, e),
    {
        self.stores.value_of(i, e)
    }

    /// Whether entity `e` belongs to the group named `n`.
    pub closed spec fn in_group(self, n: Seq<char>, e: int) -> bool {
        self.groups.member_of(n, e)
    }

    /// Whether entity `e` is tagged `n`.
    pub closed spec fn tagged(self, n: Seq<char>, e: int) -> bool {
        self.tags.binds(n, e)
    }

    /// Whether some entity is tagged `n`.
    pub closed spec fn tag_bound(self, n: Seq<char>) -> bool {
        self.tags.bound(n)
    }

    /// How one recorded change relates the event state before to after.
    pub open spec fn changed_step(pre: EntityMapper<C>, post: EntityMapper<C>, entity: Entity) -> bool {
        &&& (pre.changed_pending(entity as int) || pre.removed_pending(entity as int))
            ==> post.pending_events() == pre.pending_events()
        &&& !(pre.changed_pending(entity as int) || pre.removed_pending(entity as int))
            ==> post.pending_events() == pre.pending_events().push((Kind::Changed, entity))
        &&& forall|e: int| #[trigger]
            post.changed_pending(e) <==> (pre.changed_pending(e) || (e == entity
                && !pre.removed_pending(entity as int)))
        &&& forall|e: int| #[trigger] post.removed_pending(e) <==> pre.removed_pending(e)
    }

    /// Well-formed: the parts are well-formed and consistent. A record's
    /// component bit for a type index is set exactly while the store at
    /// that index holds a value for it; group and tag bindings name live
    /// entities whose records carry them; and a record's group names all
    /// exist in the group map.
    pub closed spec fn wf(self) -> bool {
        &&& self.mentities.wf()
        &&& self.groups.wf()
        &&& self.tags.wf()
        &&& forall|n: Seq<char>, e: int|
            #[trigger] self.groups.member_of(n, e) ==> self.live(e) && self.record_of(
                e,
            ).groups.has(n)
        &&& forall|e: int, n: Seq<char>|
            self.live(e) && #[trigger] self.record_of(e).groups.has(n)
                ==> self.groups.has_group(n)
        &&& forall|n: Seq<char>, e: int|
            #[trigger] self.tags.binds(n, e) ==> self.live(e) && self.record_of(e).tag_name()
                === Some(n)
        &&& forall|e: int|
            #[trigger] self.live(e) && self.record_of(e).tag_name() is Some ==> self.tags.binds(
                self.record_of(e).tag_name()->0,
                e,
            )
        &&& forall|e: int, i: int|
            self.live(e) ==> (#[trigger] self.record_of(e).components.has(i)
                <==> self.stores.stored(i, e))
        &&& forall|i: int, e: int| #[trigger] self.stores.stored(i, e) ==> self.live(e)
    }

    /// Creates an empty manager.
    pub fn new() -> (r: EntityMapper<C>)
        ensures
            r.wf(),
            forall|e: int| !r.live(e),
            forall|id: int| !r.id_stocked(id),
            r.pending_events() == Seq::<Event>::empty(),
            forall|e: int| !r.changed_pending(e) && !r.removed_pending(e),
            r.fresh_id() == 0,
            forall|i: int, e: int| !r.attached(i, e),
            forall|n: Seq<char>, e: int| !r.in_group(n, e) && !r.tagged(n, e),
    {
        EntityMapper {
            mentities: MetaEntityMap::new(),
            stores: ComponentMapper::new(),
            groups: GroupMap::new(),
            tags: TagMap::new(),
        }
    }

    /// Creates an entity: a reset record becomes live, with a recycled
    /// identifier if one is available, and a `Changed` event is recorded.
    pub fn create_entity(&mut self) -> (r: Entity)
        requires
            old(self).wf(),
            old(self).fresh_id() < usize::MAX,
        ensures
            final(self).wf(),
            !old(self).live(r as int),
            forall|e: int| #[trigger] final(self).live(e) <==> (old(self).live(e) || e == r),
            final(self).record_of(r as int).is_reset(),
            final(self).record_of(r as int).entity == r,
            forall|e: int|
                e != r && old(self).live(e) ==> #[trigger] final(self).record_of(e) == old(self).record_of(e),
            final(self).pending_events() == old(self).pending_events().push((Kind::Changed, r)),
            forall|e: int| #[trigger]
                final(self).changed_pending(e) <==> (old(self).changed_pending(e) || e == r),
            forall|e: int| #[trigger]
                final(self).removed_pending(e) <==> old(self).removed_pending(e),
            forall|id: int| #[trigger]
                final(self).id_stocked(id) <==> (old(self).id_stocked(id) && id != r),
            (exists|id: int| old(self).id_stocked(id)) ==> old(self).id_stocked(r as int),
            !(exists|id: int| old(self).id_stocked(id)) ==> r == old(self).fresh_id(),
            final(self).fresh_id() == if old(self).id_stocked(r as int) {
                old(self).fresh_id()
            } else {
                old(self).fresh_id() + 1
            },
            forall|i: int, e: int| #[trigger] final(self).attached(i, e) <==> old(self).attached(
                i,
                e,
            ),
            forall|i: int, e: int|
                old(self).attached(i, e) ==> #[trigger] final(self).component_of(i, e) == old(self).component_of(i, e),
            forall|n: Seq<char>, e: int| #[trigger] final(self).in_group(n, e) <==> old(self).in_group(n, e),
            forall|n: Seq<char>, e: int| #[trigger] final(self).tagged(n, e) <==> old(self).tagged(n, e),
    {
        proof {
            if exists|id: int| old(self).id_stocked(id) {
                let id = choose|id: int| old(self).id_stocked(id);
                assert(old(self).mentities.id_stocked(id));
            }
        }
        let r = self.mentities.create();
        proof {
            if exists|id: int| old(self).mentities.id_stocked(id) {
                let id = choose|id: int| old(self).mentities.id_stocked(id);
                assert(old(self).id_stocked(id));
            }
            self.lemma_wf_after_record_step(*old(self));
        }
        r
    }

    /// The consistency clauses survive a step that touches only the
    /// authoritative records, provided the step kept every consistent
    /// feature: it neither changed a live record's groups, tag or
    /// components, nor dropped a live entity, nor revived bindings.
    proof fn lemma_wf_after_record_step(&self, pre: EntityMapper<C>)
        requires
            pre.wf(),
            self.mentities.wf(),
            self.stores == pre.stores,
            self.groups == pre.groups,
            self.tags == pre.tags,
            forall|e: int| pre.live(e) ==> #[trigger] self.live(e),
            forall|e: int|
                #[trigger] self.live(e) && pre.live(e) ==> self.record_of(e) == pre.record_of(e),
            forall|e: int|
                #[trigger] self.live(e) && !pre.live(e) ==> self.record_of(e).is_reset()
                    && !(exists|i: int| #[trigger] pre.stores.stored(i, e)),
        ensures
            self.wf(),
    {
        assert forall|n: Seq<char>, e: int|
            #[trigger] self.groups.member_of(n, e) implies self.live(e) && self.record_of(
            e,
        ).groups.has(n) by {
            assert(pre.groups.member_of(n, e));
            assert(pre.live(e));
        }
        assert forall|e: int, n: Seq<char>|
            self.live(e) && #[trigger] self.record_of(e).groups.has(n) implies self.groups
            .has_group(n) by {
            if pre.live(e) {
                assert(pre.record_of(e).groups.has(n));
            }
        }
        assert forall|n: Seq<char>, e: int|
            #[trigger] self.tags.binds(n, e) implies self.live(e) && self.record_of(e).tag_name()
            === Some(n) by {
            assert(pre.tags.binds(n, e));
            assert(pre.live(e));
        }
        assert forall|e: int, i: int|
            self.live(e) implies (#[trigger] self.record_of(e).components.has(i)
            <==> self.stores.stored(i, e)) by {
            if pre.live(e) {
                assert(pre.record_of(e).components.has(i) <==> pre.stores.stored(i, e));
            } else {
                assert(!(exists|j: int| #[trigger] pre.stores.stored(j, e)));
                if self.stores.stored(i, e) {
                    assert(pre.stores.stored(i, e));
                }
            }
        }
        assert forall|i: int, e: int| #[trigger] self.stores.stored(i, e) implies self.live(e) by {
            assert(pre.stores.stored(i, e));
            assert(pre.live(e));
        }
        assert forall|e: int|
            #[trigger] self.live(e) && self.record_of(e).tag_name() is Some implies self.tags
            .binds(self.record_of(e).tag_name()->0, e) by {
            if pre.live(e) {
                assert(self.record_of(e) == pre.record_of(e));
                assert(pre.record_of(e).tag_name() is Some ==> pre.tags.binds(
                    pre.record_of(e).tag_name()->0,
                    e,
                ));
            } else {
                assert(self.record_of(e).is_reset());
            }
        }
    }

    /// The tag clause of the invariant survives a step that left the tag
    /// map, every record's tag and the set of live entities alone.
    proof fn lemma_tag_feature_preserved(&self, pre: EntityMapper<C>, entity: int)
        requires
            pre.wf(),
            self.tags == pre.tags,
            forall|e: int| #[trigger] self.live(e) ==> pre.live(e),
            forall|e: int|
                #[trigger] self.live(e) && e != entity ==> self.record_of(e) == pre.record_of(e),
            forall|e: int|
                #[trigger] self.live(e) && e == entity ==> self.record_of(e).tag
                    == pre.record_of(e).tag,
        ensures
            forall|e: int|
                #[trigger] self.live(e) && self.record_of(e).tag_name() is Some ==> self.tags.binds(
                    self.record_of(e).tag_name()->0,
                    e,
                ),
    {
        assert forall|e: int|
            #[trigger] self.live(e) && self.record_of(e).tag_name() is Some implies self.tags
            .binds(self.record_of(e).tag_name()->0, e) by {
            assert(pre.live(e));
            if e == entity {
                assert(self.record_of(e).tag == pre.record_of(e).tag);
            } else {
                assert(self.record_of(e) == pre.record_of(e));
            }
            assert(pre.record_of(e).tag_name() is Some ==> pre.tags.binds(
                pre.record_of(e).tag_name()->0,
                e,
            ));
        }
    }

    /// The component clauses of the invariant survive a step that left the
    /// stores, every record's component bits and the set of live entities
    /// alone.
    proof fn lemma_component_feature_preserved(&self, pre: EntityMapper<C>, entity: int)
        requires
            pre.wf(),
            self.stores == pre.stores,
            forall|e: int| #[trigger] self.live(e) <==> pre.live(e),
            forall|e: int|
                #[trigger] self.live(e) && e != entity ==> self.record_of(e) == pre.record_of(e),
            forall|e: int|
                #[trigger] self.live(e) && e == entity ==> self.record_of(e).components
                    == pre.record_of(e).components,
        ensures
            forall|e: int, i: int|
                self.live(e) ==> (#[trigger] self.record_of(e).components.has(i)
                    <==> self.stores.stored(i, e)),
            forall|i: int, e: int| #[trigger] self.stores.stored(i, e) ==> self.live(e),
    {
        assert forall|e: int, i: int|
            self.live(e) implies (#[trigger] self.record_of(e).components.has(i)
            <==> self.stores.stored(i, e)) by {
            assert(pre.live(e));
            if e == entity {
                assert(self.record_of(e).components == pre.record_of(e).components);
            } else {
                assert(self.record_of(e) == pre.record_of(e));
            }
            assert(pre.record_of(e).components.has(i) <==> pre.stores.stored(i, e));
        }
        assert forall|i: int, e: int| #[trigger] self.stores.stored(i, e) implies self.live(e) by {
            assert(pre.stores.stored(i, e));
            assert(pre.live(e));
        }
    }

    /// The group clauses of the invariant survive a step that left the
    /// group map, every record's group set and the set of live entities
    /// alone.
    proof fn lemma_group_feature_preserved(&self, pre: EntityMapper<C>, entity: int)
        requires
            pre.wf(),
            self.groups == pre.groups,
            forall|e: int| #[trigger] self.live(e) <==> pre.live(e),
            forall|e: int|
                #[trigger] self.live(e) && e != entity ==> self.record_of(e) == pre.record_of(e),
            forall|e: int|
                #[trigger] self.live(e) && e == entity ==> self.record_of(e).groups
                    == pre.record_of(e).groups,
        ensures
            forall|n: Seq<char>, e: int|
                #[trigger] self.groups.member_of(n, e) ==> self.live(e) && self.record_of(
                    e,
                ).groups.has(n),
            forall|e: int, n: Seq<char>|
                self.live(e) && #[trigger] self.record_of(e).groups.has(n)
                    ==> self.groups.has_group(n),
    {
        assert forall|n: Seq<char>, e: int|
            #[trigger] self.groups.member_of(n, e) implies self.live(e) && self.record_of(
            e,
        ).groups.has(n) by {
            assert(pre.groups.member_of(n, e));
            assert(pre.live(e));
            assert(self.live(e));
            if e == entity {
                assert(self.record_of(e).groups == pre.record_of(e).groups);
            } else {
                assert(self.record_of(e) == pre.record_of(e));
            }
        }
        assert forall|e: int, n: Seq<char>|
            self.live(e) && #[trigger] self.record_of(e).groups.has(n) implies self.groups
            .has_group(n) by {
            assert(pre.live(e));
            assert(self.live(e));
            if e == entity {
                assert(self.record_of(e).groups == pre.record_of(e).groups);
            } else {
                assert(self.record_of(e) == pre.record_of(e));
            }
            assert(pre.record_of(e).groups.has(n));
        }
    }

    /// Queues the removal of a live entity. The record stays live, and its
    /// components, groups and tag stay attached, until the batch is
    /// delivered; asking to remove an entity with no record is a programmer
    /// error and fails loudly.
    pub fn remove_entity(&mut self, entity: Entity)
        requires
            old(self).wf(),
            old(self).live(entity as int),
        ensures
            final(self).wf(),
            forall|e: int| #[trigger] final(self).live(e) <==> old(self).live(e),
            forall|e: int|
                old(self).live(e) ==> #[trigger] final(self).record_of(e) == old(self).record_of(
                    e,
                ),
            forall|id: int| #[trigger] final(self).id_stocked(id) <==> old(self).id_stocked(id),
            final(self).fresh_id() == old(self).fresh_id(),
            old(self).removed_pending(entity as int) ==> final(self).pending_events() == old(self).pending_events(),
            !old(self).removed_pending(entity as int) ==> final(self).pending_events() == old(self).pending_events().push((Kind::Removed, entity)),
            forall|e: int| #[trigger]
                final(self).removed_pending(e) <==> (old(self).removed_pending(e) || e == entity),
            forall|e: int| #[trigger]
                final(self).changed_pending(e) <==> old(self).changed_pending(e),
            forall|i: int, e: int| #[trigger] final(self).attached(i, e) <==> old(self).attached(
                i,
                e,
            ),
            forall|i: int, e: int|
                old(self).attached(i, e) ==> #[trigger] final(self).component_of(i, e) == old(self).component_of(i, e),
            forall|n: Seq<char>, e: int| #[trigger] final(self).in_group(n, e) <==> old(self).in_group(n, e),
            forall|n: Seq<char>, e: int| #[trigger] final(self).tagged(n, e) <==> old(self).tagged(n, e),
    {
        self.mentities.remove(entity);
        proof {
            self.lemma_wf_after_record_step(*old(self));
        }
    }

    /// Enables a live entity: systems will update it again.
    pub fn wake_up(&mut self, entity: Entity)
        requires
            old(self).wf(),
            old(self).live(entity as int),
        ensures
            final(self).wf(),
            forall|e: int| #[trigger] final(self).live(e) <==> old(self).live(e),
            final(self).record_of(entity as int) == (MetaEntity {
                is_awake: true,
                ..old(self).record_of(entity as int)
            }),
            forall|e: int|
                e != entity && old(self).live(e) ==> #[trigger] final(self).record_of(e) == old(self).record_of(e),
            EntityMapper::changed_step(*old(self), *final(self), entity),
            final(self).unrelated_state_preserved(*old(self)),
    {
        self.set_awake(entity, true);
    }

    /// Disables a live entity: it keeps receiving notifications but systems
    /// stop updating it.
    pub fn put_to_sleep(&mut self, entity: Entity)
        requires
            old(self).wf(),
            old(self).live(entity as int),
        ensures
            final(self).wf(),
            forall|e: int| #[trigger] final(self).live(e) <==> old(self).live(e),
            final(self).record_of(entity as int) == (MetaEntity {
                is_awake: false,
                ..old(self).record_of(entity as int)
            }),
            forall|e: int|
                e != entity && old(self).live(e) ==> #[trigger] final(self).record_of(e) == old(self).record_of(e),
            EntityMapper::changed_step(*old(self), *final(self), entity),
            final(self).unrelated_state_preserved(*old(self)),
    {
        self.set_awake(entity, false);
    }

    /// The stores, bindings, pool and identifiers are as they were.
    pub open spec fn unrelated_state_preserved(self, pre: EntityMapper<C>) -> bool {
        &&& forall|id: int| #[trigger] self.id_stocked(id) <==> pre.id_stocked(id)
        &&& self.fresh_id() == pre.fresh_id()
        &&& forall|i: int, e: int| #[trigger] self.attached(i, e) <==> pre.attached(i, e)
        &&& forall|i: int, e: int|
            pre.attached(i, e) ==> #[trigger] self.component_of(i, e) == pre.component_of(i, e)
        &&& forall|n: Seq<char>, e: int| #[trigger] self.in_group(n, e) <==> pre.in_group(n, e)
        &&& forall|n: Seq<char>, e: int| #[trigger] self.tagged(n, e) <==> pre.tagged(n, e)
    }

    /// Enables or disables a live entity, recording a `Changed` event.
    fn set_awake(&mut self, entity: Entity, awake: bool)
        requires
            old(self).wf(),
            old(self).live(entity as int),
        ensures
            final(self).wf(),
            forall|e: int| #[trigger] final(self).live(e) <==> old(self).live(e),
            final(self).record_of(entity as int) == (MetaEntity {
                is_awake: awake,
                ..old(self).record_of(entity as int)
            }),
            forall|e: int|
                e != entity && old(self).live(e) ==> #[trigger] final(self).record_of(e) == old(self).record_of(e),
            EntityMapper::changed_step(*old(self), *final(self), entity),
            final(self).unrelated_state_preserved(*old(self)),
    {
        self.mentities.set_awake(entity, awake);
        proof {
            assert forall|e: int, i: int|
                self.live(e) implies (#[trigger] self.record_of(e).components.has(i)
                <==> self.stores.stored(i, e)) by {
                assert(old(self).live(e));
                if e == entity as int {
                    assert(self.record_of(e).components == old(self).record_of(e).components);
                }
                assert(old(self).record_of(e).components.has(i) <==> old(self).stores.stored(
                    i,
                    e,
                ));
            }
            self.lemma_group_feature_preserved(*old(self), entity as int);
            assert forall|n: Seq<char>, e: int|
                #[trigger] self.tags.binds(n, e) implies self.live(e) && self.record_of(
                e,
            ).tag_name() === Some(n) by {
                assert(old(self).tags.binds(n, e));
                if e == entity as int {
                    assert(self.record_of(e).tag == old(self).record_of(e).tag);
                }
            }
            assert forall|i: int, e: int| #[trigger] self.stores.stored(i, e) implies self.live(
                e,
            ) by {
                assert(old(self).stores.stored(i, e));
            }
            self.lemma_tag_feature_preserved(*old(self), entity as int);
        }
    }

    /// Returns a reference to the live record of an entity. Asking for an
    /// entity with no record is a programmer error and fails loudly.
    pub fn get_mentity(&self, entity: Entity) -> (r: &MetaEntity)
        requires
            self.live(entity as int),
        ensures
            *r == self.record_of(entity as int),
    {
        self.mentities.get(entity)
    }

    /// Returns a mutable reference to the live record of an entity,
    /// recording a `Changed` event for it. Asking for an entity with no
    /// record is a programmer error and fails loudly.
    ///
    /// Rewriting the record's consistent features (its identifier, groups,
    /// tag or component bits) through the reference is the caller's risk:
    /// the manager's invariant holds again only if they are left in place.
    pub fn get_mentity_mut(&mut self, entity: Entity) -> (r: &mut MetaEntity)
        requires
            old(self).wf(),
            old(self).live(entity as int),
        ensures
            *r == old(self).record_of(entity as int),
            forall|e: int| #[trigger] final(self).live(e) <==> old(self).live(e),
            final(self).record_of(entity as int) == *final(r),
            forall|e: int|
                e != entity && old(self).live(e) ==> #[trigger] final(self).record_of(e) == old(self).record_of(e),
            EntityMapper::changed_step(*old(self), *final(self), entity),
            final(self).unrelated_state_preserved(*old(self)),
            (final(r).entity == entity && final(r).wf() && final(r).groups == old(self).record_of(
                entity as int,
            ).groups && final(r).tag == old(self).record_of(entity as int).tag
                && final(r).components == old(self).record_of(entity as int).components)
                ==> final(self).wf(),
    {
        proof {
            assert forall|n: Seq<char>, e: int|
                #[trigger] self.groups.member_of(n, e) implies self.mentities.live(e)
                && self.mentities.record_of(e).groups.has(n) by {}
            assert forall|e: int, n: Seq<char>|
                self.mentities.live(e) && #[trigger] self.mentities.record_of(e).groups.has(
                n,
            ) implies self.groups.has_group(n) by {
                assert(self.live(e));
                assert(self.record_of(e).groups.has(n));
            }
            assert forall|n: Seq<char>, e: int|
                #[trigger] self.tags.binds(n, e) implies self.mentities.live(e)
                && self.mentities.record_of(e).tag_name() === Some(n) by {}
            assert forall|e: int|
                #[trigger] self.mentities.live(e) && self.mentities.record_of(e).tag_name() is
                Some implies self.tags.binds(self.mentities.record_of(e).tag_name()->0, e) by {
                assert(self.live(e));
                assert(self.record_of(e).tag_name() == self.mentities.record_of(e).tag_name());
            }
            assert forall|e: int, i: int|
                self.mentities.live(e) implies (#[trigger] self.mentities.record_of(
                e,
            ).components.has(i) <==> self.stores.stored(i, e)) by {
                assert(self.live(e));
                assert(self.record_of(e).components.has(i) <==> self.stores.stored(i, e));
            }
            assert forall|i: int, e: int|
                #[trigger] self.stores.stored(i, e) implies self.mentities.live(e) by {}
        }
        self.mentities.get_mut(entity)
    }
}

impl<C> EntityMapper<C> {
    /// Attaches a component to a live entity: the store for the type index
    /// takes the value, the record's component bit is set, and a `Changed`
    /// event is recorded.
    pub fn attach_component(&mut self, entity: Entity, index: usize, component: C)
        requires
            old(self).wf(),
            old(self).live(entity as int),
        ensures
            final(self).wf(),
            forall|e: int| #[trigger] final(self).live(e) <==> old(self).live(e),
            forall|i: int, e: int| #[trigger]
                final(self).attached(i, e) <==> (old(self).attached(i, e) || (i == index && e
                    == entity)),
            final(self).component_of(index as int, entity as int) == component,
            forall|i: int, e: int|
                !(i == index && e == entity) && old(self).attached(i, e) ==> #[trigger] final(self).component_of(i, e) == old(self).component_of(i, e),
            final(self).record_of(entity as int).is_awake == old(self).record_of(
                entity as int,
            ).is_awake,
            final(self).record_of(entity as int).tag == old(self).record_of(entity as int).tag,
            final(self).record_of(entity as int).groups == old(self).record_of(
                entity as int,
            ).groups,
            final(self).record_of(entity as int).entity == old(self).record_of(
                entity as int,
            ).entity,
            forall|i: int|
                #[trigger] final(self).record_of(entity as int).components.has(i) <==> (old(
                    self,
                ).record_of(entity as int).components.has(i) || i == index),
            forall|e: int|
                e != entity && old(self).live(e) ==> #[trigger] final(self).record_of(e) == old(self).record_of(e),
            EntityMapper::changed_step(*old(self), *final(self), entity),
            forall|id: int| #[trigger] final(self).id_stocked(id) <==> old(self).id_stocked(id),
            final(self).fresh_id() == old(self).fresh_id(),
            forall|n: Seq<char>, e: int| #[trigger] final(self).in_group(n, e) <==> old(self).in_group(n, e),
            forall|n: Seq<char>, e: int| #[trigger] final(self).tagged(n, e) <==> old(self).tagged(n, e),
    {
        let rec = self.mentities.get_mut(entity);
        self.stores.insert(rec, index, component);
        proof {
            assert(self.mentities.wf());
            assert forall|e: int, i: int|
                self.live(e) implies (#[trigger] self.record_of(e).components.has(i)
                <==> self.stores.stored(i, e)) by {
                assert(old(self).live(e));
                if e != entity as int {
                    assert(self.record_of(e) == old(self).record_of(e));
                }
                assert(old(self).record_of(e).components.has(i) <==> old(self).stores.stored(
                    i,
                    e,
                ));
            }
            assert forall|i: int, e: int| #[trigger] self.stores.stored(i, e) implies self.live(
                e,
            ) by {
                if !(i == index && e == entity) {
                    assert(old(self).stores.stored(i, e));
                }
            }
            self.lemma_group_feature_preserved(*old(self), entity as int);
            assert forall|n: Seq<char>, e: int|
                #[trigger] self.tags.binds(n, e) implies self.live(e) && self.record_of(
                e,
            ).tag_name() === Some(n) by {
                assert(old(self).tags.binds(n, e));
                if e == entity as int {
                    assert(self.record_of(e).tag == old(self).record_of(e).tag);
                }
            }
            self.lemma_tag_feature_preserved(*old(self), entity as int);
        }
    }

    /// Detaches a component from a live entity: the entry leaves the store
    /// if present, the record's component bit is cleared, and a `Changed`
    /// event is recorded. Detaching an absent component is not an error.
    pub fn detach_component(&mut self, entity: Entity, index: usize)
        requires
            old(self).wf(),
            old(self).live(entity as int),
        ensures
            final(self).wf(),
            forall|e: int| #[trigger] final(self).live(e) <==> old(self).live(e),
            forall|i: int, e: int| #[trigger]
                final(self).attached(i, e) <==> (old(self).attached(i, e) && !(i == index && e
                    == entity)),
            forall|i: int, e: int|
                !(i == index && e == entity) && old(self).attached(i, e) ==> #[trigger] final(self).component_of(i, e) == old(self).component_of(i, e),
            final(self).record_of(entity as int).is_awake == old(self).record_of(
                entity as int,
            ).is_awake,
            final(self).record_of(entity as int).tag == old(self).record_of(entity as int).tag,
            final(self).record_of(entity as int).groups == old(self).record_of(
                entity as int,
            ).groups,
            final(self).record_of(entity as int).entity == old(self).record_of(
                entity as int,
            ).entity,
            forall|i: int|
                #[trigger] final(self).record_of(entity as int).components.has(i) <==> (old(
                    self,
                ).record_of(entity as int).components.has(i) && i != index),
            forall|e: int|
                e != entity && old(self).live(e) ==> #[trigger] final(self).record_of(e) == old(self).record_of(e),
            EntityMapper::changed_step(*old(self), *final(self), entity),
            forall|id: int| #[trigger] final(self).id_stocked(id) <==> old(self).id_stocked(id),
            final(self).fresh_id() == old(self).fresh_id(),
            forall|n: Seq<char>, e: int| #[trigger] final(self).in_group(n, e) <==> old(self).in_group(n, e),
            forall|n: Seq<char>, e: int| #[trigger] final(self).tagged(n, e) <==> old(self).tagged(n, e),
    {
        let rec = self.mentities.get_mut(entity);
        self.stores.remove(rec, index);
        proof {
            assert(self.mentities.wf());
            assert forall|e: int, i: int|
                self.live(e) implies (#[trigger] self.record_of(e).components.has(i)
                <==> self.stores.stored(i, e)) by {
                assert(old(self).live(e));
                if e != entity as int {
                    assert(self.record_of(e) == old(self).record_of(e));
                }
                assert(old(self).record_of(e).components.has(i) <==> old(self).stores.stored(
                    i,
                    e,
                ));
            }
            assert forall|i: int, e: int| #[trigger] self.stores.stored(i, e) implies self.live(
                e,
            ) by {
                assert(old(self).stores.stored(i, e));
            }
            self.lemma_group_feature_preserved(*old(self), entity as int);
            assert forall|n: Seq<char>, e: int|
                #[trigger] self.tags.binds(n, e) implies self.live(e) && self.record_of(
                e,
            ).tag_name() === Some(n) by {
                assert(old(self).tags.binds(n, e));
                if e == entity as int {
                    assert(self.record_of(e).tag == old(self).record_of(e).tag);
                }
            }
            self.lemma_tag_feature_preserved(*old(self), entity as int);
        }
    }

    /// Returns a mutable reference to a component of an entity, which must
    /// be attached. A read-write accessor over the value alone: membership
    /// does not change and no event is recorded. A verified caller that
    /// needs the manager's invariant afterwards updates values through
    /// `attach_component` instead, which restates it.
    pub fn get_component_mut(&mut self, entity: Entity, index: usize) -> (r: &mut C)
        requires
            old(self).wf(),
            old(self).attached(index as int, entity as int),
        ensures
            *r == old(self).component_of(index as int, entity as int),
            final(self).component_of(index as int, entity as int) == *final(r),
            forall|i: int, e: int| #[trigger] final(self).attached(i, e) <==> old(self).attached(
                i,
                e,
            ),
            forall|i: int, e: int|
                !(i == index && e == entity) && old(self).attached(i, e)
                    ==> #[trigger] final(self).component_of(i, e) == old(self).component_of(i, e),
            forall|e: int| #[trigger] final(self).live(e) <==> old(self).live(e),
            forall|e: int|
                old(self).live(e) ==> #[trigger] final(self).record_of(e) == old(self).record_of(
                    e,
                ),
            final(self).pending_events() == old(self).pending_events(),
            forall|e: int| #[trigger]
                final(self).changed_pending(e) <==> old(self).changed_pending(e),
            forall|e: int| #[trigger]
                final(self).removed_pending(e) <==> old(self).removed_pending(e),
            forall|id: int| #[trigger] final(self).id_stocked(id) <==> old(self).id_stocked(id),
            final(self).fresh_id() == old(self).fresh_id(),
            forall|n: Seq<char>, e: int| #[trigger] final(self).in_group(n, e) <==> old(
                self,
            ).in_group(n, e),
            forall|n: Seq<char>, e: int| #[trigger] final(self).tagged(n, e) <==> old(
                self,
            ).tagged(n, e),
    {
        proof {
            assert(self.stores.stored(index as int, entity as int));
        }
        self.stores.get_mut(entity, index)
    }

    /// Returns a reference to a component of an entity, if attached. A read
    /// accessor: no event is recorded.
    pub fn get_component(&self, entity: Entity, index: usize) -> (r: Option<&C>)
        ensures
            match r {
                Some(v) => self.attached(index as int, entity as int) && *v == self.component_of(
                    index as int,
                    entity as int,
                ),
                None => !self.attached(index as int, entity as int),
            },
    {
        self.stores.try_get(entity, index)
    }
}

impl<C> EntityMapper<C> {
    /// Inserts a live entity into a group, creating the group if needed,
    /// and records a `Changed` event.
    pub fn set_group(&mut self, entity: Entity, group: &str)
        requires
            old(self).wf(),
            old(self).live(entity as int),
        ensures
            final(self).wf(),
            forall|e: int| #[trigger] final(self).live(e) <==> old(self).live(e),
            forall|n: Seq<char>, e: int| #[trigger]
                final(self).in_group(n, e) <==> (old(self).in_group(n, e) || (n == group@ && e
                    == entity)),
            final(self).record_of(entity as int).is_awake == old(self).record_of(
                entity as int,
            ).is_awake,
            final(self).record_of(entity as int).tag == old(self).record_of(entity as int).tag,
            final(self).record_of(entity as int).components == old(self).record_of(
                entity as int,
            ).components,
            forall|n: Seq<char>|
                #[trigger] final(self).record_of(entity as int).groups.has(n) <==> (old(self).record_of(entity as int).groups.has(n) || n == group@),
            forall|e: int|
                e != entity && old(self).live(e) ==> #[trigger] final(self).record_of(e) == old(self).record_of(e),
            EntityMapper::changed_step(*old(self), *final(self), entity),
            forall|id: int| #[trigger] final(self).id_stocked(id) <==> old(self).id_stocked(id),
            final(self).fresh_id() == old(self).fresh_id(),
            forall|i: int, e: int| #[trigger] final(self).attached(i, e) <==> old(self).attached(
                i,
                e,
            ),
            forall|i: int, e: int|
                old(self).attached(i, e) ==> #[trigger] final(self).component_of(i, e) == old(self).component_of(i, e),
            forall|n: Seq<char>, e: int| #[trigger] final(self).tagged(n, e) <==> old(self).tagged(n, e),
    {
        let rec = self.mentities.get_mut(entity);
        self.groups.insert_in(rec, group);
        proof {
            assert(self.mentities.wf());
            assert forall|n: Seq<char>, e: int|
                #[trigger] self.groups.member_of(n, e) implies self.live(e) && self.record_of(
                e,
            ).groups.has(n) by {
                if !(n == group@ && e == entity as int) {
                    assert(old(self).groups.member_of(n, e));
                    if e == entity as int {
                    } else {
                        assert(self.record_of(e) == old(self).record_of(e));
                    }
                }
            }
            assert forall|e: int, n: Seq<char>|
                self.live(e) && #[trigger] self.record_of(e).groups.has(n) implies self.groups
                .has_group(n) by {
                assert(old(self).live(e));
                if e == entity as int {
                    if n != group@ {
                        assert(old(self).record_of(e).groups.has(n));
                        assert(old(self).groups.has_group(n));
                        let j = choose|j: int|
                            0 <= j < old(self).groups.names().len() && old(self).groups.names()[j]
                                == n;
                        assert(self.groups.names()[j] == n);
                    } else {
                        assert(self.groups.has_group(group@)) by {
                            if old(self).groups.has_group(group@) {
                                let j = choose|j: int|
                                    0 <= j < old(self).groups.names().len() && old(self).groups.names()[j] == group@;
                                assert(self.groups.names()[j] == group@);
                            } else {
                                assert(self.groups.names()[old(self).groups.names().len() as int]
                                    == group@);
                            }
                        }
                    }
                } else {
                    assert(self.record_of(e) == old(self).record_of(e));
                    assert(old(self).record_of(e).groups.has(n));
                    assert(old(self).groups.has_group(n));
                    let j = choose|j: int|
                        0 <= j < old(self).groups.names().len() && old(self).groups.names()[j]
                            == n;
                    assert(self.groups.names()[j] == n);
                }
            }
            assert forall|n: Seq<char>, e: int|
                #[trigger] self.tags.binds(n, e) implies self.live(e) && self.record_of(
                e,
            ).tag_name() === Some(n) by {
                assert(old(self).tags.binds(n, e));
                if e == entity as int {
                    assert(self.record_of(e).tag == old(self).record_of(e).tag);
                }
            }
            self.lemma_component_feature_preserved(*old(self), entity as int);
            self.lemma_tag_feature_preserved(*old(self), entity as int);
        }
    }


    /// Removes a live entity from a group and records a `Changed` event.
    pub fn unset_group(&mut self, entity: Entity, group: &str)
        requires
            old(self).wf(),
            old(self).live(entity as int),
        ensures
            final(self).wf(),
            forall|e: int| #[trigger] final(self).live(e) <==> old(self).live(e),
            forall|n: Seq<char>, e: int| #[trigger]
                final(self).in_group(n, e) <==> (old(self).in_group(n, e) && !(n == group@ && e
                    == entity)),
            final(self).record_of(entity as int).is_awake == old(self).record_of(
                entity as int,
            ).is_awake,
            final(self).record_of(entity as int).tag == old(self).record_of(entity as int).tag,
            final(self).record_of(entity as int).components == old(self).record_of(
                entity as int,
            ).components,
            forall|n: Seq<char>|
                #[trigger] final(self).record_of(entity as int).groups.has(n) <==> (old(self).record_of(entity as int).groups.has(n) && n != group@),
            forall|e: int|
                e != entity && old(self).live(e) ==> #[trigger] final(self).record_of(e) == old(self).record_of(e),
            EntityMapper::changed_step(*old(self), *final(self), entity),
            forall|id: int| #[trigger] final(self).id_stocked(id) <==> old(self).id_stocked(id),
            final(self).fresh_id() == old(self).fresh_id(),
            forall|i: int, e: int| #[trigger] final(self).attached(i, e) <==> old(self).attached(
                i,
                e,
            ),
            forall|i: int, e: int|
                old(self).attached(i, e) ==> #[trigger] final(self).component_of(i, e) == old(self).component_of(i, e),
            forall|n: Seq<char>, e: int| #[trigger] final(self).tagged(n, e) <==> old(self).tagged(n, e),
    {
        let rec = self.mentities.get_mut(entity);
        self.groups.remove_from(rec, group);
        proof {
            assert(self.mentities.wf());
            assert forall|n: Seq<char>, e: int|
                #[trigger] self.groups.member_of(n, e) implies self.live(e) && self.record_of(
                e,
            ).groups.has(n) by {
                assert(old(self).groups.member_of(n, e));
                if e == entity as int {
                } else {
                    assert(self.record_of(e) == old(self).record_of(e));
                }
            }
            assert forall|e: int, n: Seq<char>|
                self.live(e) && #[trigger] self.record_of(e).groups.has(n) implies self.groups
                .has_group(n) by {
                assert(old(self).live(e));
                if e != entity as int {
                    assert(self.record_of(e) == old(self).record_of(e));
                }
                assert(old(self).record_of(e).groups.has(n));
                assert(old(self).groups.has_group(n));
                let j = choose|j: int|
                    0 <= j < old(self).groups.names().len() && old(self).groups.names()[j] == n;
                assert(self.groups.names()[j] == n);
            }
            assert forall|n: Seq<char>, e: int|
                #[trigger] self.tags.binds(n, e) implies self.live(e) && self.record_of(
                e,
            ).tag_name() === Some(n) by {
                assert(old(self).tags.binds(n, e));
                if e == entity as int {
                    assert(self.record_of(e).tag == old(self).record_of(e).tag);
                }
            }
            self.lemma_component_feature_preserved(*old(self), entity as int);
            self.lemma_tag_feature_preserved(*old(self), entity as int);
        }
    }

    /// Removes a live entity from every group and records a `Changed`
    /// event.
    pub fn clear_entity_groups(&mut self, entity: Entity)
        requires
            old(self).wf(),
            old(self).live(entity as int),
        ensures
            final(self).wf(),
            forall|e: int| #[trigger] final(self).live(e) <==> old(self).live(e),
            forall|n: Seq<char>, e: int| #[trigger]
                final(self).in_group(n, e) <==> (old(self).in_group(n, e) && e != entity),
            final(self).record_of(entity as int).is_awake == old(self).record_of(
                entity as int,
            ).is_awake,
            final(self).record_of(entity as int).tag == old(self).record_of(entity as int).tag,
            final(self).record_of(entity as int).components == old(self).record_of(
                entity as int,
            ).components,
            forall|n: Seq<char>| !final(self).record_of(entity as int).groups.has(n),
            forall|e: int|
                e != entity && old(self).live(e) ==> #[trigger] final(self).record_of(e) == old(self).record_of(e),
            EntityMapper::changed_step(*old(self), *final(self), entity),
            forall|id: int| #[trigger] final(self).id_stocked(id) <==> old(self).id_stocked(id),
            final(self).fresh_id() == old(self).fresh_id(),
            forall|i: int, e: int| #[trigger] final(self).attached(i, e) <==> old(self).attached(
                i,
                e,
            ),
            forall|i: int, e: int|
                old(self).attached(i, e) ==> #[trigger] final(self).component_of(i, e) == old(self).component_of(i, e),
            forall|n: Seq<char>, e: int| #[trigger] final(self).tagged(n, e) <==> old(self).tagged(n, e),
    {
        let rec = self.mentities.get_mut(entity);
        self.groups.clear_entity(rec);
        proof {
            assert(self.mentities.wf());
            assert forall|n: Seq<char>, e: int|
                #[trigger] self.groups.member_of(n, e) implies self.live(e) && self.record_of(
                e,
            ).groups.has(n) by {
                assert(old(self).groups.member_of(n, e));
                assert(e != entity as int);
                assert(self.record_of(e) == old(self).record_of(e));
            }
            assert forall|e: int, n: Seq<char>|
                self.live(e) && #[trigger] self.record_of(e).groups.has(n) implies self.groups
                .has_group(n) by {
                assert(old(self).live(e));
                assert(e != entity as int);
                assert(self.record_of(e) == old(self).record_of(e));
                assert(old(self).record_of(e).groups.has(n));
                assert(old(self).groups.has_group(n));
                let j = choose|j: int|
                    0 <= j < old(self).groups.names().len() && old(self).groups.names()[j] == n;
                assert(self.groups.names()[j] == n);
            }
            assert forall|n: Seq<char>, e: int|
                #[trigger] self.tags.binds(n, e) implies self.live(e) && self.record_of(
                e,
            ).tag_name() === Some(n) by {
                assert(old(self).tags.binds(n, e));
                if e == entity as int {
                    assert(self.record_of(e).tag == old(self).record_of(e).tag);
                }
            }
            self.lemma_component_feature_preserved(*old(self), entity as int);
            self.lemma_tag_feature_preserved(*old(self), entity as int);
        }
    }

    /// Returns the entities of a group, in ascending order of identifier;
    /// an unknown group name yields no entity. A read accessor: no event is
    /// recorded.
    pub fn get_group(&self, group: &str) -> (r: Vec<Entity>)
        requires
            self.wf(),
        ensures
            forall|e: int|
                (exists|j: int| 0 <= j < r@.len() && #[trigger] r@[j] == e) <==> self.in_group(
                    group@,
                    e,
                ),
            forall|j1: int, j2: int| 0 <= j1 < j2 < r@.len() ==> r@[j1] < r@[j2],
    {
        self.groups.get(group)
    }
}

impl<C> EntityMapper<C> {
    /// Tags a live entity, releasing its previous tag, and returns that
    /// previous tag; a `Changed` event is recorded. Binding a tag that
    /// already names another entity is a programmer error and fails loudly;
    /// the contract rules it out.
    pub fn set_tag(&mut self, entity: Entity, tag: &str) -> (r: Option<String>)
        requires
            old(self).wf(),
            old(self).live(entity as int),
            old(self).tag_bound(tag@) ==> old(self).record_of(entity as int).tag_name() === Some(
                tag@,
            ),
        ensures
            final(self).wf(),
            forall|e: int| #[trigger] final(self).live(e) <==> old(self).live(e),
            r == old(self).record_of(entity as int).tag,
            final(self).record_of(entity as int).tag_name() === Some(tag@),
            final(self).record_of(entity as int).is_awake == old(self).record_of(
                entity as int,
            ).is_awake,
            final(self).record_of(entity as int).groups == old(self).record_of(
                entity as int,
            ).groups,
            final(self).record_of(entity as int).components == old(self).record_of(
                entity as int,
            ).components,
            forall|e: int|
                e != entity && old(self).live(e) ==> #[trigger] final(self).record_of(e) == old(self).record_of(e),
            forall|n: Seq<char>, e: int| #[trigger]
                final(self).tagged(n, e) <==> ((n == tag@ && e == entity) || (old(self).tagged(
                    n,
                    e,
                ) && n != tag@ && (match old(self).record_of(entity as int).tag_name() {
                    Some(p) => n != p,
                    None => true,
                }))),
            EntityMapper::changed_step(*old(self), *final(self), entity),
            forall|id: int| #[trigger] final(self).id_stocked(id) <==> old(self).id_stocked(id),
            final(self).fresh_id() == old(self).fresh_id(),
            forall|i: int, e: int| #[trigger] final(self).attached(i, e) <==> old(self).attached(
                i,
                e,
            ),
            forall|i: int, e: int|
                old(self).attached(i, e) ==> #[trigger] final(self).component_of(i, e) == old(self).component_of(i, e),
            forall|n: Seq<char>, e: int| #[trigger] final(self).in_group(n, e) <==> old(self).in_group(n, e),
    {
        let rec = self.mentities.get_mut(entity);
        let r = self.tags.insert(rec, tag);
        proof {
            assert(self.mentities.wf());
            assert forall|n: Seq<char>, e: int|
                #[trigger] self.tags.binds(n, e) implies self.live(e) && self.record_of(
                e,
            ).tag_name() === Some(n) by {
                if n == tag@ && e == entity as int {
                } else {
                    assert(old(self).tags.binds(n, e));
                    if e != entity as int {
                        assert(self.record_of(e) == old(self).record_of(e));
                    } else {
                        assert(old(self).record_of(e).tag_name() === Some(n));
                    }
                }
            }
            self.lemma_group_feature_preserved(*old(self), entity as int);
            self.lemma_component_feature_preserved(*old(self), entity as int);
            assert forall|e: int|
                #[trigger] self.live(e) && self.record_of(e).tag_name() is Some implies self.tags
                .binds(self.record_of(e).tag_name()->0, e) by {
                assert(old(self).live(e));
                if e == entity as int {
                    assert(self.record_of(e).tag_name() === Some(tag@));
                    assert(self.tags.binds(tag@, e));
                } else {
                    assert(self.record_of(e) == old(self).record_of(e));
                    let n0 = self.record_of(e).tag_name()->0;
                    assert(old(self).tags.binds(n0, e));
                    if n0 == tag@ {
                        let kb = choose|k: int|
                            0 <= k < old(self).tags.tag_names().len() && old(
                                self,
                            ).tags.tag_names()[k] == tag@ && #[trigger] old(self).tags.binds_at(
                                k,
                                e,
                            );
                        assert(old(self).tags.bound(tag@));
                        assert(old(self).record_of(entity as int).tag_name() === Some(tag@));
                        assert(old(self).tags.binds(tag@, entity as int));
                        old(self).tags.lemma_binds_unique(tag@, e, entity as int);
                    }
                    match old(self).record_of(entity as int).tag_name() {
                        Some(p) => {
                            if n0 == p {
                                assert(old(self).tags.binds(p, entity as int));
                                old(self).tags.lemma_binds_unique(p, e, entity as int);
                            }
                        },
                        None => {},
                    }
                    assert(self.tags.binds(n0, e));
                }
            }
        }
        r
    }

    /// Clears the tag of a live entity, if it carries one, and records a
    /// `Changed` event.
    pub fn unset_tag(&mut self, entity: Entity)
        requires
            old(self).wf(),
            old(self).live(entity as int),
        ensures
            final(self).wf(),
            forall|e: int| #[trigger] final(self).live(e) <==> old(self).live(e),
            final(self).record_of(entity as int).tag is None,
            final(self).record_of(entity as int).is_awake == old(self).record_of(
                entity as int,
            ).is_awake,
            final(self).record_of(entity as int).groups == old(self).record_of(
                entity as int,
            ).groups,
            final(self).record_of(entity as int).components == old(self).record_of(
                entity as int,
            ).components,
            forall|e: int|
                e != entity && old(self).live(e) ==> #[trigger] final(self).record_of(e) == old(self).record_of(e),
            forall|n: Seq<char>, e: int| #[trigger]
                final(self).tagged(n, e) <==> (old(self).tagged(n, e) && (match old(self).record_of(entity as int).tag_name() {
                    Some(p) => n != p,
                    None => true,
                })),
            EntityMapper::changed_step(*old(self), *final(self), entity),
            forall|id: int| #[trigger] final(self).id_stocked(id) <==> old(self).id_stocked(id),
            final(self).fresh_id() == old(self).fresh_id(),
            forall|i: int, e: int| #[trigger] final(self).attached(i, e) <==> old(self).attached(
                i,
                e,
            ),
            forall|i: int, e: int|
                old(self).attached(i, e) ==> #[trigger] final(self).component_of(i, e) == old(self).component_of(i, e),
            forall|n: Seq<char>, e: int| #[trigger] final(self).in_group(n, e) <==> old(self).in_group(n, e),
    {
        let rec = self.mentities.get_mut(entity);
        self.tags.remove(rec);
        proof {
            assert(self.mentities.wf());
            assert forall|n: Seq<char>, e: int|
                #[trigger] self.tags.binds(n, e) implies self.live(e) && self.record_of(
                e,
            ).tag_name() === Some(n) by {
                assert(old(self).tags.binds(n, e));
                if e != entity as int {
                    assert(self.record_of(e) == old(self).record_of(e));
                } else {
                    assert(old(self).record_of(e).tag_name() === Some(n));
                }
            }
            self.lemma_group_feature_preserved(*old(self), entity as int);
            self.lemma_component_feature_preserved(*old(self), entity as int);
            assert forall|e: int|
                #[trigger] self.live(e) && self.record_of(e).tag_name() is Some implies self.tags
                .binds(self.record_of(e).tag_name()->0, e) by {
                assert(old(self).live(e));
                assert(e != entity as int);
                assert(self.record_of(e) == old(self).record_of(e));
                let n0 = self.record_of(e).tag_name()->0;
                assert(old(self).tags.binds(n0, e));
                match old(self).record_of(entity as int).tag_name() {
                    Some(p) => {
                        if n0 == p {
                            assert(old(self).tags.binds(p, entity as int));
                            old(self).tags.lemma_binds_unique(p, e, entity as int);
                        }
                    },
                    None => {},
                }
                assert(self.tags.binds(n0, e));
            }
        }
    }

    /// Returns the entity tagged `tag`, if any. A read accessor: no event
    /// is recorded.
    pub fn try_get_tag(&self, tag: &str) -> (r: Option<Entity>)
        ensures
            match r {
                Some(e) => self.tagged(tag@, e as int),
                None => !self.tag_bound(tag@),
            },
    {
        self.tags.get(tag)
    }

    /// Returns the entity tagged `tag`. Asking for a tag that names no
    /// entity is a programmer error and fails loudly.
    pub fn get_tag(&self, tag: &str) -> (r: Entity)
        requires
            self.tag_bound(tag@),
        ensures
            self.tagged(tag@, r as int),
    {
        match self.tags.get(tag) {
            Some(e) => e,
            None => unreached(),
        }
    }
}

/// Whether the first `k` events of `batch` include the removal of `e`.
pub open spec fn removed_within(batch: Seq<Event>, k: int, e: int) -> bool {
    exists|j: int|
        0 <= j < k && #[trigger] batch[j] === (Kind::Removed, e as usize) && e == batch[j].1
}

impl<C> EntityMapper<C> {
    /// What one delivery hands the observer: the pending events in
    /// insertion order, each paired with the named entity's record as it
    /// stands when the batch goes out — for a removal, the final live
    /// record, cleaned up only after the observer has seen it.
    pub open spec fn delivered_batch(self) -> Seq<(Kind, MetaEntity)> {
        Seq::new(
            self.pending_events().len(),
            |i: int| (self.pending_events()[i].0, self.record_of(self.pending_events()[i].1 as int)),
        )
    }

    /// Delivers the recorded events to an observer, in insertion order, and
    /// then cleans up: for each `Removed` event, once the observer has seen
    /// the entity's final live record, its components, group memberships
    /// and tag are dropped and its record returns to the pool, the
    /// identifier eligible for reuse. Entities with only `Changed` events
    /// keep their state untouched.
    ///
    /// The observer's received log grows by exactly the delivered batch:
    /// every event, in order, each with the record as it stood at delivery —
    /// for a removal, the record still live and fully furnished, since its
    /// cleanup runs only after the notification.
    pub fn notify_events<Cfg, O: Observer<Cfg>>(&mut self, obs: &mut O)
        requires
            old(self).wf(),
            old(obs).inv(),
        ensures
            final(self).wf(),
            final(obs).inv(),
            final(obs).config() == old(obs).config(),
            final(obs).received() == old(obs).received() + old(self).delivered_batch(),
            final(self).pending_events() == Seq::<Event>::empty(),
            forall|e: int| !final(self).changed_pending(e) && !final(self).removed_pending(e),
            forall|e: int| #[trigger]
                final(self).live(e) <==> (old(self).live(e) && !old(self).removed_pending(e)),
            forall|e: int|
                old(self).live(e) && !old(self).removed_pending(e) ==> #[trigger] final(self).record_of(e) == old(self).record_of(e),
            forall|id: int| #[trigger]
                final(self).id_stocked(id) <==> (old(self).id_stocked(id) || (old(self).live(id)
                    && old(self).removed_pending(id))),
            final(self).fresh_id() == old(self).fresh_id(),
            forall|i: int, e: int| #[trigger]
                final(self).attached(i, e) <==> (old(self).attached(i, e) && !old(self).removed_pending(e)),
            forall|i: int, e: int|
                old(self).attached(i, e) && !old(self).removed_pending(e) ==> #[trigger] final(self).component_of(i, e) == old(self).component_of(i, e),
            forall|n: Seq<char>, e: int| #[trigger]
                final(self).in_group(n, e) <==> (old(self).in_group(n, e) && !old(self).removed_pending(e)),
            forall|n: Seq<char>, e: int| #[trigger]
                final(self).tagged(n, e) <==> (old(self).tagged(n, e) && !old(self).removed_pending(e)),
    {
        let batch = self.mentities.drain();
        let ghost gb = batch@;
        let ghost deliv = old(self).delivered_batch();
        proof {
            assert(gb == old(self).pending_events());
            assert forall|e: int| #[trigger]
                old(self).removed_pending(e) <==> removed_within(gb, gb.len() as int, e) by {}
            assert(self.wf()) by {
                assert forall|n: Seq<char>, e: int|
                    #[trigger] self.groups.member_of(n, e) implies self.live(e) && self.record_of(
                    e,
                ).groups.has(n) by {
                    assert(old(self).groups.member_of(n, e));
                    assert(old(self).live(e));
                    assert(self.record_of(e) == old(self).record_of(e));
                }
                assert forall|e: int, n: Seq<char>|
                    self.live(e) && #[trigger] self.record_of(e).groups.has(n) implies self.groups
                    .has_group(n) by {
                    assert(old(self).live(e));
                    assert(self.record_of(e) == old(self).record_of(e));
                    assert(old(self).record_of(e).groups.has(n));
                }
                assert forall|n: Seq<char>, e: int|
                    #[trigger] self.tags.binds(n, e) implies self.live(e) && self.record_of(
                    e,
                ).tag_name() === Some(n) by {
                    assert(old(self).tags.binds(n, e));
                    assert(old(self).live(e));
                    assert(self.record_of(e) == old(self).record_of(e));
                }
                assert forall|e: int, i: int|
                    self.live(e) implies (#[trigger] self.record_of(e).components.has(i)
                    <==> self.stores.stored(i, e)) by {
                    assert(old(self).live(e));
                    assert(self.record_of(e) == old(self).record_of(e));
                    assert(old(self).record_of(e).components.has(i) <==> old(self).stores.stored(
                        i,
                        e,
                    ));
                }
                assert forall|i: int, e: int|
                    #[trigger] self.stores.stored(i, e) implies self.live(e) by {
                    assert(old(self).stores.stored(i, e));
                    assert(old(self).live(e));
                }
                assert forall|e: int|
                    #[trigger] self.live(e) && self.record_of(e).tag_name() is Some implies self
                    .tags.binds(self.record_of(e).tag_name()->0, e) by {
                    assert(old(self).live(e));
                    assert(self.record_of(e) == old(self).record_of(e));
                    assert(old(self).record_of(e).tag_name() is Some ==> old(self).tags.binds(
                        old(self).record_of(e).tag_name()->0,
                        e,
                    ));
                }
            }
        }
        let mut k: usize = 0;
        proof {
            assert(obs.received() =~= old(obs).received() + deliv.take(0));
        }
        while k < batch.len()
            invariant
                batch@ == gb,
                gb == old(self).pending_events(),
                deliv == old(self).delivered_batch(),
                k <= gb.len(),
                old(self).wf(),
                self.wf(),
                obs.inv(),
                obs.config() == old(obs).config(),
                obs.received() == old(obs).received() + deliv.take(k as int),
                self.pending_events().len() == 0,
                forall|e: int| !self.changed_pending(e) && !self.removed_pending(e),
                self.fresh_id() == old(self).fresh_id(),
                forall|e: int| #[trigger]
                    self.live(e) <==> (old(self).live(e) && !removed_within(gb, k as int, e)),
                forall|e: int|
                    #[trigger] self.live(e) ==> self.record_of(e) == old(self).record_of(e),
                forall|id: int| #[trigger]
                    self.id_stocked(id) <==> (old(self).id_stocked(id) || (old(self).live(id)
                        && removed_within(gb, k as int, id))),
                forall|i: int, e: int| #[trigger]
                    self.attached(i, e) <==> (old(self).attached(i, e) && !removed_within(
                        gb,
                        k as int,
                        e,
                    )),
                forall|i: int, e: int|
                    #[trigger] self.attached(i, e) ==> self.component_of(i, e) == old(self).component_of(i, e),
                forall|n: Seq<char>, e: int| #[trigger]
                    self.in_group(n, e) <==> (old(self).in_group(n, e) && !removed_within(
                        gb,
                        k as int,
                        e,
                    )),
                forall|n: Seq<char>, e: int| #[trigger]
                    self.tagged(n, e) <==> (old(self).tagged(n, e) && !removed_within(
                        gb,
                        k as int,
                        e,
                    )),
            decreases gb.len() - k,
        {
            let ev = batch[k];
            let kind = ev.0;
            let e = ev.1;
            proof {
                assert(gb[k as int] == ev);
                assert(old(self).live(old(self).pending_events()[k as int].1 as int));
                assert(old(self).live(e as int));
                assert(!removed_within(gb, k as int, e as int)) by {
                    if removed_within(gb, k as int, e as int) {
                        let j = choose|j: int|
                            0 <= j < k && #[trigger] gb[j] === (Kind::Removed, e) && e as int
                                == gb[j].1;
                        let ki = k as int;
                        assert(old(self).pending_events()[j].1 == old(self).pending_events()[ki].1);
                        assert(old(self).pending_events()[j].0 == Kind::Changed);
                    }
                }
                assert(self.live(e as int));
            }
            match kind {
                Kind::Changed => {
                    let rec = self.mentities.get(e);
                    obs.notify_changed(rec);
                    proof {
                        assert(deliv[k as int] == (Kind::Changed, *rec));
                        assert(deliv.take(k + 1) =~= deliv.take(k as int).push(deliv[k as int]));
                        assert(obs.received() =~= old(obs).received() + deliv.take(k + 1));
                        assert forall|x: int|
                            removed_within(gb, k + 1 as int, x) <==> removed_within(
                            gb,
                            k as int,
                            x,
                        ) by {
                            if removed_within(gb, k + 1 as int, x) {
                                let j = choose|j: int|
                                    0 <= j < k + 1 && #[trigger] gb[j] === (
                                    Kind::Removed,
                                    x as usize,
                                    ) && x == gb[j].1;
                                if j == k {
                                    assert(gb[j].0 == Kind::Changed);
                                }
                            }
                        }
                    }
                },
                Kind::Removed => {
                    let ghost pre = *self;
                    {
                        let rec = self.mentities.get(e);
                        obs.notify_removed(rec);
                        proof {
                            assert(deliv[k as int] == (Kind::Removed, *rec));
                            assert(deliv.take(k + 1) =~= deliv.take(k as int).push(
                                deliv[k as int],
                            ));
                            assert(obs.received() =~= old(obs).received() + deliv.take(k + 1));
                        }
                    }
                    {
                        let rec = self.mentities.get(e);
                        proof {
                            assert forall|n: Seq<char>| #[trigger]
                                rec.groups.has(n) implies self.groups.has_group(n) by {
                                assert(self.record_of(e as int).groups.has(n));
                            }
                            assert(rec.wf());
                        }
                        self.stores.forget(rec);
                        self.groups.forget(rec);
                        self.tags.forget(rec);
                    }
                    proof {
                        assert(self.mentities.live(e as int));
                        assert(self.mentities.pending_events().len() == 0);
                    }
                    self.mentities.release(e);
                    proof {
                        let ghost rec = pre.record_of(e as int);
                        assert forall|x: int|
                            removed_within(gb, k + 1 as int, x) <==> (removed_within(
                            gb,
                            k as int,
                            x,
                        ) || x == e as int) by {
                            if removed_within(gb, k + 1 as int, x) {
                                let j = choose|j: int|
                                    0 <= j < k + 1 && #[trigger] gb[j] === (
                                    Kind::Removed,
                                    x as usize,
                                    ) && x == gb[j].1;
                                if j == k {
                                    assert(x == e as int);
                                }
                            }
                            if x == e as int {
                                assert(gb[k as int] === (Kind::Removed, x as usize) && x == gb[k as int].1);
                            }
                        }
                        assert forall|e2: int| #[trigger]
                            self.live(e2) <==> (old(self).live(e2) && !removed_within(
                            gb,
                            k + 1 as int,
                            e2,
                        )) by {
                            assert(self.live(e2) <==> (pre.live(e2) && e2 != e as int));
                        }
                        assert forall|e2: int|
                            #[trigger] self.live(e2) implies self.record_of(e2) == old(self).record_of(e2) by {
                            assert(pre.live(e2) && e2 != e as int);
                            assert(self.record_of(e2) == pre.record_of(e2));
                        }
                        assert forall|id: int| #[trigger]
                            self.id_stocked(id) <==> (old(self).id_stocked(id) || (old(self).live(id) && removed_within(gb, k + 1 as int, id))) by {
                            assert(self.id_stocked(id) <==> (pre.id_stocked(id) || id
                                == e as int));
                        }
                        assert(pre.wf());
                        assert(pre.live(e as int));
                        assert(rec == pre.record_of(e as int));
                        assert(rec.entity == e);
                        assert forall|i: int, e2: int| #[trigger]
                            self.attached(i, e2) <==> (old(self).attached(i, e2)
                                && !removed_within(gb, k + 1 as int, e2)) by {
                            assert(self.stores.stored(i, e2) <==> (pre.stores.stored(i, e2) && !(
                            e2 == rec.entity && rec.components.has(i))));
                            assert(pre.attached(i, e2) <==> (old(self).attached(i, e2)
                                && !removed_within(gb, k as int, e2)));
                            if e2 == e as int {
                                if pre.stores.stored(i, e2) {
                                    assert(pre.live(e2));
                                    assert(pre.record_of(e2).components.has(i)
                                        <==> pre.stores.stored(i, e2));
                                    assert(rec.components.has(i));
                                }
                                assert(!self.attached(i, e2));
                            }
                        }
                        assert forall|i: int, e2: int|
                            #[trigger] self.attached(i, e2) implies self.component_of(i, e2)
                            == old(self).component_of(i, e2) by {
                            assert(self.stores.stored(i, e2) <==> (pre.stores.stored(i, e2) && !(
                            e2 == rec.entity && rec.components.has(i))));
                            assert(pre.stores.stored(i, e2));
                            assert(pre.attached(i, e2));
                            assert(pre.component_of(i, e2) == old(self).component_of(i, e2));
                            assert(self.stores.value_of(i, e2) == pre.stores.value_of(i, e2));
                        }
                        assert forall|n: Seq<char>, e2: int| #[trigger]
                            self.in_group(n, e2) <==> (old(self).in_group(n, e2)
                                && !removed_within(gb, k + 1 as int, e2)) by {
                            assert(self.groups.member_of(n, e2) <==> (pre.groups.member_of(n, e2)
                                && !(e2 == rec.entity && rec.groups.has(n))));
                            assert(pre.in_group(n, e2) <==> (old(self).in_group(n, e2)
                                && !removed_within(gb, k as int, e2)));
                            if e2 == e as int {
                                if pre.groups.member_of(n, e2) {
                                    assert(pre.record_of(e2).groups.has(n));
                                }
                                assert(!self.in_group(n, e2));
                            }
                        }
                        assert forall|n: Seq<char>, e2: int| #[trigger]
                            self.tagged(n, e2) <==> (old(self).tagged(n, e2) && !removed_within(
                            gb,
                            k + 1 as int,
                            e2,
                        )) by {
                            assert(self.tags.binds(n, e2) <==> (pre.tags.binds(n, e2) && (
                            match rec.tag_name() {
                                Some(p) => n != p,
                                None => true,
                            })));
                            assert(pre.tagged(n, e2) <==> (old(self).tagged(n, e2)
                                && !removed_within(gb, k as int, e2)));
                            if e2 == e as int {
                                if pre.tags.binds(n, e2) {
                                    assert(pre.record_of(e2).tag_name() === Some(n));
                                }
                                assert(!self.tagged(n, e2));
                            } else {
                                if pre.tags.binds(n, e2) {
                                    match rec.tag_name() {
                                        Some(p) => {
                                            if n == p {
                                                assert(pre.live(e as int));
                                                assert(pre.tags.binds(p, e as int));
                                                pre.tags.lemma_binds_unique(p, e2, e as int);
                                            }
                                        },
                                        None => {},
                                    }
                                }
                            }
                        }
                        assert(self.wf()) by {
                            assert(self.mentities.wf());
                            assert forall|n: Seq<char>, e2: int|
                                #[trigger] self.groups.member_of(n, e2) implies self.live(e2)
                                && self.record_of(e2).groups.has(n) by {
                                assert(pre.groups.member_of(n, e2) && !(e2 == rec.entity
                                    && rec.groups.has(n)));
                                assert(pre.live(e2) && pre.record_of(e2).groups.has(n));
                                assert(e2 != e as int);
                                assert(self.record_of(e2) == pre.record_of(e2));
                            }
                            assert forall|e2: int, n: Seq<char>|
                                self.live(e2) && #[trigger] self.record_of(e2).groups.has(
                                n,
                            ) implies self.groups.has_group(n) by {
                                assert(pre.live(e2) && e2 != e as int);
                                assert(self.record_of(e2) == pre.record_of(e2));
                                assert(pre.record_of(e2).groups.has(n));
                                assert(pre.groups.has_group(n));
                                let j = choose|j: int|
                                    0 <= j < pre.groups.names().len() && pre.groups.names()[j]
                                        == n;
                                assert(self.groups.names()[j] == n);
                            }
                            assert forall|n: Seq<char>, e2: int|
                                #[trigger] self.tags.binds(n, e2) implies self.live(e2)
                                && self.record_of(e2).tag_name() === Some(n) by {
                                assert(pre.tags.binds(n, e2));
                                assert(pre.live(e2) && pre.record_of(e2).tag_name() === Some(n));
                                assert(e2 != e as int);
                                assert(self.record_of(e2) == pre.record_of(e2));
                            }
                            assert forall|e2: int, i: int|
                                self.live(e2) implies (#[trigger] self.record_of(
                                e2,
                            ).components.has(i) <==> self.stores.stored(i, e2)) by {
                                assert(pre.live(e2) && e2 != e as int);
                                assert(self.record_of(e2) == pre.record_of(e2));
                                assert(pre.record_of(e2).components.has(i) <==> pre.stores.stored(
                                    i,
                                    e2,
                                ));
                                assert(self.stores.stored(i, e2) <==> pre.stores.stored(i, e2));
                            }
                            assert forall|i: int, e2: int|
                                #[trigger] self.stores.stored(i, e2) implies self.live(e2) by {
                                assert(pre.stores.stored(i, e2));
                                assert(pre.live(e2));
                                assert(e2 != e as int);
                            }
                            assert forall|e2: int|
                                #[trigger] self.live(e2) && self.record_of(e2).tag_name() is
                                Some implies self.tags.binds(
                                self.record_of(e2).tag_name()->0,
                                e2,
                            ) by {
                                assert(pre.live(e2) && e2 != e as int);
                                assert(self.record_of(e2) == pre.record_of(e2));
                                let n0 = self.record_of(e2).tag_name()->0;
                                assert(pre.tags.binds(n0, e2));
                                match rec.tag_name() {
                                    Some(p) => {
                                        if n0 == p {
                                            assert(pre.tags.binds(p, e as int));
                                            pre.tags.lemma_binds_unique(p, e2, e as int);
                                        }
                                    },
                                    None => {},
                                }
                                assert(self.tags.binds(n0, e2));
                            }
                        }
                    }
                },
            }
            k += 1;
        }
        proof {
            assert(deliv.take(gb.len() as int) =~= deliv);
            assert forall|e: int| #[trigger]
                final(self).live(e) <==> (old(self).live(e) && !old(self).removed_pending(e)) by {
                assert(self.live(e) <==> (old(self).live(e) && !removed_within(
                    gb,
                    gb.len() as int,
                    e,
                )));
            }
            assert forall|e: int|
                old(self).live(e) && !old(self).removed_pending(e) implies #[trigger] self
                .record_of(e) == old(self).record_of(e) by {
                assert(self.live(e));
            }
            assert forall|id: int| #[trigger]
                self.id_stocked(id) <==> (old(self).id_stocked(id) || (old(self).live(id) && old(
                    self,
                ).removed_pending(id))) by {
                assert(self.id_stocked(id) <==> (old(self).id_stocked(id) || (old(self).live(id)
                    && removed_within(gb, gb.len() as int, id))));
            }
            assert forall|i: int, e: int| #[trigger]
                self.attached(i, e) <==> (old(self).attached(i, e) && !old(self).removed_pending(
                    e,
                )) by {
                assert(self.attached(i, e) <==> (old(self).attached(i, e) && !removed_within(
                    gb,
                    gb.len() as int,
                    e,
                )));
            }
            assert forall|i: int, e: int|
                old(self).attached(i, e) && !old(self).removed_pending(e) implies #[trigger] self
                .component_of(i, e) == old(self).component_of(i, e) by {
                assert(self.attached(i, e));
            }
            assert forall|n: Seq<char>, e: int| #[trigger]
                self.in_group(n, e) <==> (old(self).in_group(n, e) && !old(self).removed_pending(
                    e,
                )) by {
                assert(self.in_group(n, e) <==> (old(self).in_group(n, e) && !removed_within(
                    gb,
                    gb.len() as int,
                    e,
                )));
            }
            assert forall|n: Seq<char>, e: int| #[trigger]
                self.tagged(n, e) <==> (old(self).tagged(n, e) && !old(self).removed_pending(
                    e,
                )) by {
                assert(self.tagged(n, e) <==> (old(self).tagged(n, e) && !removed_within(
                    gb,
                    gb.len() as int,
                    e,
                )));
            }
        }
    }
}

/// A live record carries its own identifier and is well-formed: what the
/// manager's invariant guarantees of every record it hands out.
pub proof fn lemma_live_record_id<C>(m: EntityMapper<C>, e: int)
    requires
        m.wf(),
        m.live(e),
    ensures
        m.record_of(e).entity == e,
        m.record_of(e).wf(),
{
}

} // verus!
