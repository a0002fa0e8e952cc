//! Per-type component storage.
//!
//! Component data lives in sparse per-type tables keyed by entity, and the
//! tables themselves are keyed by a small dense type index. A registration
//! collaborator (outside this crate) assigns the index of each component
//! type once and for all; the [`Component`] trait states that obligation.
//! Every attach and detach also updates the entity record's component bits,
//! so that the bit for an index is set exactly while the table at that index
//! holds a value for the entity.

use vstd::prelude::*;
use vstd::pervasive::unreached;
use crate::entity::{Entity, MetaEntity};
use crate::vecmap::VecMap;

verus! {

/// The contract for component types: each type reports the stable small
/// index assigned to it at registration.
pub trait Component {
    /// The type's stable index.
    fn index_of() -> usize;
}

/// Returns the stable index of a component type.
pub fn index_of<C: Component>() -> usize {
    <C as Component>::index_of()
}

/// A sparse table of components of one type, keyed by entity.
pub struct DefaultStore<C> {
    entries: VecMap<C>,
}

impl<C> DefaultStore<C> {
    /// Whether the table holds a component for entity `e`.
    pub closed spec fn stored(self, e: int) -> bool {
        self.entries.has_key(e)
    }

    /// The component held for entity `e`.
    pub closed spec fn value_of(self, e: int) -> C
        recommends
            self.stored(e),
    {
        self.entries.spec_get(e)
    }

    /// Creates an empty table.
    pub fn new() -> (r: DefaultStore<C>)
        ensures
            forall|e: int| !r.stored(e),
    {
        DefaultStore { entries: VecMap::new() }
    }

    /// Stores a component for an entity, replacing any previous one.
    pub fn insert(&mut self, entity: Entity, component: C)
        ensures
            forall|e: int| #[trigger] final(self).stored(e) <==> (old(self).stored(e) || e
                == entity),
            final(self).value_of(entity as int) == component,
            forall|e: int|
                e != entity && old(self).stored(e) ==> #[trigger] final(self).value_of(e) == old(
                    self,
                ).value_of(e),
    {
        self.entries.insert(entity, component);
    }

    /// Deletes the entity's component, if present.
    pub fn remove(&mut self, entity: Entity)
        ensures
            forall|e: int| #[trigger] final(self).stored(e) <==> (old(self).stored(e) && e
                != entity),
            forall|e: int|
                e != entity && old(self).stored(e) ==> #[trigger] final(self).value_of(e) == old(
                    self,
                ).value_of(e),
    {
        let _ = self.entries.remove(entity);
    }

    /// Returns a reference to the entity's component, if present.
    pub fn try_get(&self, entity: Entity) -> (r: Option<&C>)
        ensures
            match r {
                Some(v) => self.stored(entity as int) && *v == self.value_of(entity as int),
                None => !self.stored(entity as int),
            },
    {
        self.entries.get(entity)
    }

    /// Returns a reference to the entity's component, which must be present.
    pub fn get(&self, entity: Entity) -> (r: &C)
        requires
            self.stored(entity as int),
        ensures
            *r == self.value_of(entity as int),
    {
        match self.entries.get(entity) {
            Some(v) => v,
            None => unreached(),
        }
    }

    /// Returns a mutable reference to the entity's component, which must be
    /// present.
    pub fn get_mut(&mut self, entity: Entity) -> (r: &mut C)
        requires
            old(self).stored(entity as int),
        ensures
            *r == old(self).value_of(entity as int),
            forall|e: int| #[trigger] final(self).stored(e) <==> old(self).stored(e),
            final(self).value_of(entity as int) == *final(r),
            forall|e: int|
                e != entity && old(self).stored(e) ==> #[trigger] final(self).value_of(e) == old(
                    self,
                ).value_of(e),
    {
        self.entries.get_mut(entity)
    }
}

/// The collection of per-type component tables, keyed by type index.
pub struct ComponentMapper<C> {
    stores: VecMap<DefaultStore<C>>,
}

impl<C> ComponentMapper<C> {
    /// Whether a table exists for type index `i`.
    pub closed spec fn has_table(self, i: int) -> bool {
        self.stores.has_key(i)
    }

    /// The table bound to type index `i`.
    pub closed spec fn table_at(self, i: int) -> DefaultStore<C>
        recommends
            self.has_table(i),
    {
        self.stores.spec_get(i)
    }

    /// Whether a component of type index `i` is attached to entity `e`.
    pub closed spec fn stored(self, i: int, e: int) -> bool {
        self.stores.has_key(i) && self.stores.spec_get(i).stored(e)
    }

    /// The component of type index `i` attached to entity `e`.
    pub closed spec fn value_of(self, i: int, e: int) -> C
        recommends
            self.stored(i, e),
    {
        self.stores.spec_get(i).value_of(e)
    }

    /// Creates a mapper with no table.
    pub fn new() -> (r: ComponentMapper<C>)
        ensures
            forall|i: int| !r.has_table(i),
            forall|i: int, e: int| !r.stored(i, e),
    {
        ComponentMapper { stores: VecMap::new() }
    }

    /// Ensures that a table exists for type index `index`.
    pub fn ensure(&mut self, index: usize)
        ensures
            forall|i: int| #[trigger] final(self).has_table(i) <==> (old(self).has_table(i) || i
                == index),
            forall|i: int, e: int| #[trigger]
                final(self).stored(i, e) <==> old(self).stored(i, e),
            forall|i: int, e: int|
                old(self).stored(i, e) ==> #[trigger] final(self).value_of(i, e) == old(
                    self,
                ).value_of(i, e),
    {
        if !self.stores.contains_key(index) {
            self.stores.insert(index, DefaultStore::new());
        }
    }

    /// Attaches a component to an entity: stores it in the table for
    /// `index`, creating the table if needed, and sets the entity record's
    /// component bit.
    pub fn insert(&mut self, mentity: &mut MetaEntity, index: usize, component: C)
        ensures
            final(mentity).entity == old(mentity).entity,
            final(mentity).is_awake == old(mentity).is_awake,
            final(mentity).tag == old(mentity).tag,
            final(mentity).groups == old(mentity).groups,
            forall|i: int|
                #[trigger] final(mentity).components.has(i) <==> (old(mentity).components.has(i)
                    || i == index),
            forall|i: int| #[trigger] final(self).has_table(i) <==> (old(self).has_table(i) || i
                == index),
            forall|i: int, e: int| #[trigger]
                final(self).stored(i, e) <==> (old(self).stored(i, e) || (i == index && e == old(
                    mentity,
                ).entity)),
            final(self).value_of(index as int, old(mentity).entity as int) == component,
            forall|i: int, e: int|
                !(i == index && e == old(mentity).entity) && old(self).stored(i, e)
                    ==> #[trigger] final(self).value_of(i, e) == old(self).value_of(i, e),
    {
        mentity.components.insert(index);
        self.ensure(index);
        proof {
            assert(self.has_table(index as int));
        }
        let ghost mid = *self;
        let table = self.stores.get_mut(index);
        table.insert(mentity.entity, component);
        proof {
            assert forall|i: int| #[trigger] self.has_table(i) <==> mid.has_table(i) by {
                assert(self.stores.has_key(i) <==> mid.stores.has_key(i));
            }
            assert forall|i: int, e: int| #[trigger]
                self.stored(i, e) <==> (old(self).stored(i, e) || (i == index && e == old(
                    mentity,
                ).entity)) by {
                assert(mid.stored(i, e) <==> old(self).stored(i, e));
                if i != index {
                    assert(self.stores.spec_get(i) == mid.stores.spec_get(i) || !mid.stores
                        .has_key(i));
                } else {
                    assert(self.stores.spec_get(i).stored(e) <==> (mid.stores.spec_get(i).stored(
                        e,
                    ) || e == old(mentity).entity));
                }
            }
            assert(self.value_of(index as int, old(mentity).entity as int) == component);
            assert forall|i: int, e: int|
                !(i == index && e == old(mentity).entity) && old(self).stored(i, e)
                    implies #[trigger] self.value_of(i, e) == old(self).value_of(i, e) by {
                assert(mid.stored(i, e) <==> old(self).stored(i, e));
                assert(mid.stored(i, e) ==> mid.value_of(i, e) == old(self).value_of(i, e));
                if i != index {
                    assert(self.stores.spec_get(i) == mid.stores.spec_get(i) || !mid.stores
                        .has_key(i));
                } else {
                    assert(self.stores.spec_get(i).value_of(e) == mid.stores.spec_get(
                        i,
                    ).value_of(e));
                }
            }
        }
    }

    /// Detaches a component from an entity: deletes the entry if present and
    /// clears the entity record's component bit. Detaching an absent
    /// component is not an error.
    pub fn remove(&mut self, mentity: &mut MetaEntity, index: usize)
        ensures
            final(mentity).entity == old(mentity).entity,
            final(mentity).is_awake == old(mentity).is_awake,
            final(mentity).tag == old(mentity).tag,
            final(mentity).groups == old(mentity).groups,
            forall|i: int|
                #[trigger] final(mentity).components.has(i) <==> (old(mentity).components.has(i)
                    && i != index),
            forall|i: int| #[trigger] final(self).has_table(i) <==> old(self).has_table(i),
            forall|i: int, e: int| #[trigger]
                final(self).stored(i, e) <==> (old(self).stored(i, e) && !(i == index && e == old(
                    mentity,
                ).entity)),
            forall|i: int, e: int|
                !(i == index && e == old(mentity).entity) && old(self).stored(i, e)
                    ==> #[trigger] final(self).value_of(i, e) == old(self).value_of(i, e),
    {
        mentity.components.remove(index);
        let ghost mid = *self;
        if self.stores.contains_key(index) {
            let table = self.stores.get_mut(index);
            table.remove(mentity.entity);
            proof {
                assert forall|i: int| #[trigger] self.has_table(i) <==> mid.has_table(i) by {
                    assert(self.stores.has_key(i) <==> mid.stores.has_key(i));
                }
                assert forall|i: int, e: int| #[trigger]
                    self.stored(i, e) <==> (old(self).stored(i, e) && !(i == index && e == old(
                        mentity,
                    ).entity)) by {
                    if i != index {
                        assert(self.stores.spec_get(i) == mid.stores.spec_get(i) || !mid.stores
                            .has_key(i));
                    } else {
                        assert(self.stores.spec_get(i).stored(e) <==> (mid.stores.spec_get(
                            i,
                        ).stored(e) && e != old(mentity).entity));
                    }
                }
                assert forall|i: int, e: int|
                    !(i == index && e == old(mentity).entity) && old(self).stored(i, e)
                        implies #[trigger] self.value_of(i, e) == old(self).value_of(i, e) by {
                    if i != index {
                        assert(self.stores.spec_get(i) == mid.stores.spec_get(i) || !mid.stores
                            .has_key(i));
                    } else {
                        assert(self.stores.spec_get(i).value_of(e) == mid.stores.spec_get(
                            i,
                        ).value_of(e));
                    }
                }
            }
        } else {
            proof {
                assert(!self.has_table(index as int));
                assert forall|i: int, e: int| #[trigger]
                    self.stored(i, e) <==> (old(self).stored(i, e) && !(i == index && e == old(
                        mentity,
                    ).entity)) by {}
            }
        }
    }

    /// Detaches every component from an entity, clearing the record's bit
    /// for each existing table's index.
    pub fn remove_all(&mut self, mentity: &mut MetaEntity)
        ensures
            final(mentity).entity == old(mentity).entity,
            final(mentity).is_awake == old(mentity).is_awake,
            final(mentity).tag == old(mentity).tag,
            final(mentity).groups == old(mentity).groups,
            forall|i: int|
                #[trigger] final(mentity).components.has(i) <==> (old(mentity).components.has(i)
                    && !old(self).has_table(i)),
            forall|i: int| #[trigger] final(self).has_table(i) <==> old(self).has_table(i),
            forall|i: int, e: int| #[trigger]
                final(self).stored(i, e) <==> (old(self).stored(i, e) && e != old(
                    mentity,
                ).entity),
            forall|i: int, e: int|
                e != old(mentity).entity && old(self).stored(i, e)
                    ==> #[trigger] final(self).value_of(i, e) == old(self).value_of(i, e),
    {
        let entity = mentity.entity;
        let cap = self.stores.capacity();
        let mut k: usize = 0;
        while k < cap
            invariant
                forall|i: int| #[trigger] self.has_table(i) ==> 0 <= i < cap,
                forall|i: int| #[trigger] self.has_table(i) <==> old(self).has_table(i),
                forall|i: int, e: int|
                    e != entity ==> (#[trigger] self.stored(i, e) <==> old(self).stored(i, e)),
                forall|i: int, e: int|
                    e != entity && old(self).stored(i, e) ==> #[trigger] self.value_of(i, e)
                        == old(self).value_of(i, e),
                forall|i: int|
                    0 <= i < k ==> !#[trigger] self.stored(i, entity as int),
                forall|i: int|
                    k <= i ==> (#[trigger] self.stored(i, entity as int) <==> old(self).stored(
                        i,
                        entity as int,
                    )),
                mentity.entity == old(mentity).entity,
                mentity.is_awake == old(mentity).is_awake,
                mentity.tag == old(mentity).tag,
                mentity.groups == old(mentity).groups,
                forall|i: int|
                    #[trigger] mentity.components.has(i) <==> (old(mentity).components.has(i) && !(
                    0 <= i < k && old(self).has_table(i))),
            decreases cap - k,
        {
            if self.stores.contains_key(k) {
                proof {
                    assert(self.has_table(k as int));
                    assert(old(self).has_table(k as int));
                }
                mentity.components.remove(k);
                let ghost mid = *self;
                let ghost bits = *mentity;
                let table = self.stores.get_mut(k);
                table.remove(entity);
                proof {
                    assert forall|i: int| #[trigger] self.has_table(i) <==> mid.has_table(i) by {
                        assert(self.stores.has_key(i) <==> mid.stores.has_key(i));
                    }
                    assert forall|i: int, e: int|
                        !(i == k as int && e == entity as int) implies (#[trigger] self.stored(
                        i,
                        e,
                    ) <==> mid.stored(i, e)) && (mid.stored(i, e) ==> self.value_of(i, e)
                        == mid.value_of(i, e)) by {
                        if i != k as int {
                            assert(self.stores.spec_get(i) == mid.stores.spec_get(i)
                                || !mid.stores.has_key(i));
                        } else {
                            assert(self.stores.spec_get(i).stored(e) <==> (mid.stores.spec_get(
                                i,
                            ).stored(e) && e != entity));
                            assert(mid.stores.spec_get(i).stored(e) ==> self.stores.spec_get(
                                i,
                            ).value_of(e) == mid.stores.spec_get(i).value_of(e));
                        }
                    }
                    assert(!self.stored(k as int, entity as int));
                    assert forall|i: int, e: int|
                        e != entity && old(self).stored(i, e) implies #[trigger] self.value_of(
                        i,
                        e,
                    ) == old(self).value_of(i, e) by {
                        assert(mid.stored(i, e) <==> old(self).stored(i, e));
                        assert(mid.value_of(i, e) == old(self).value_of(i, e));
                        assert(self.stored(i, e) <==> mid.stored(i, e));
                    }
                    assert forall|i: int|
                        #[trigger] mentity.components.has(i) <==> (old(mentity).components.has(i)
                            && !(0 <= i < k + 1 && old(self).has_table(i))) by {}
                }
            } else {
                proof {
                    assert(!self.has_table(k as int));
                    assert(!old(self).has_table(k as int));
                    assert(!self.stored(k as int, entity as int));
                    assert forall|i: int|
                        #[trigger] mentity.components.has(i) <==> (old(mentity).components.has(i)
                            && !(0 <= i < k + 1 && old(self).has_table(i))) by {}
                }
            }
            k += 1;
        }
        proof {
            assert forall|i: int, e: int| #[trigger]
                self.stored(i, e) <==> (old(self).stored(i, e) && e != entity as int) by {
                if e == entity as int {
                    if 0 <= i < cap {
                        assert(!self.stored(i, entity as int));
                    } else {
                        if self.stored(i, e) {
                            assert(self.has_table(i));
                        }
                        if old(self).stored(i, e) {
                            assert(self.stored(i, entity as int) <==> old(self).stored(
                                i,
                                entity as int,
                            ));
                        }
                    }
                }
            }
        }
    }

    /// Forgets an entity: deletes its entry from the table of every type
    /// index its record names, without touching the record itself.
    pub fn forget(&mut self, mentity: &MetaEntity)
        ensures
            forall|i: int| #[trigger] final(self).has_table(i) <==> old(self).has_table(i),
            forall|i: int, e: int| #[trigger]
                final(self).stored(i, e) <==> (old(self).stored(i, e) && !(e == mentity.entity
                    && mentity.components.has(i))),
            forall|i: int, e: int|
                !(e == mentity.entity && mentity.components.has(i)) && old(self).stored(i, e)
                    ==> #[trigger] final(self).value_of(i, e) == old(self).value_of(i, e),
    {
        let entity = mentity.entity;
        let indices = mentity.components.to_indices();
        let mut k: usize = 0;
        while k < indices.len()
            invariant
                k <= indices@.len(),
                forall|i: int|
                    mentity.components.has(i) <==> exists|j: int|
                        0 <= j < indices@.len() && #[trigger] indices@[j] == i,
                forall|j1: int, j2: int|
                    0 <= j1 < j2 < indices@.len() ==> indices@[j1] < indices@[j2],
                forall|i: int| #[trigger] self.has_table(i) <==> old(self).has_table(i),
                forall|i: int, e: int|
                    e != entity ==> (#[trigger] self.stored(i, e) <==> old(self).stored(i, e)),
                forall|i: int, e: int|
                    e != entity && old(self).stored(i, e) ==> #[trigger] self.value_of(i, e)
                        == old(self).value_of(i, e),
                forall|i: int| #[trigger]
                    self.stored(i, entity as int) <==> (old(self).stored(i, entity as int) && !(
                    exists|j: int| 0 <= j < k && #[trigger] indices@[j] == i)),
                forall|i: int| #[trigger]
                    self.stored(i, entity as int) ==> self.value_of(i, entity as int) == old(
                        self,
                    ).value_of(i, entity as int),
            decreases indices@.len() - k,
        {
            let index = indices[k];
            let ghost mid = *self;
            if self.stores.contains_key(index) {
                let table = self.stores.get_mut(index);
                table.remove(entity);
            }
            proof {
                assert forall|i: int| #[trigger] self.has_table(i) <==> mid.has_table(i) by {
                    assert(self.stores.has_key(i) <==> mid.stores.has_key(i));
                }
                assert forall|i: int, e: int|
                    !(i == index as int && e == entity as int) implies (#[trigger] self.stored(
                    i,
                    e,
                ) <==> mid.stored(i, e)) && (mid.stored(i, e) ==> self.value_of(i, e)
                    == mid.value_of(i, e)) by {
                    if i != index as int {
                        assert(self.stores.spec_get(i) == mid.stores.spec_get(i) || !mid.stores
                            .has_key(i));
                    } else {
                        if mid.stores.has_key(i) {
                            assert(self.stores.spec_get(i).stored(e) <==> (mid.stores.spec_get(
                                i,
                            ).stored(e) && e != entity));
                            assert(mid.stores.spec_get(i).stored(e) ==> self.stores.spec_get(
                                i,
                            ).value_of(e) == mid.stores.spec_get(i).value_of(e));
                        }
                    }
                }
                assert(!self.stored(index as int, entity as int));
                assert forall|i: int, e: int|
                    e != entity && old(self).stored(i, e) implies #[trigger] self.value_of(i, e)
                        == old(self).value_of(i, e) by {
                    assert(mid.stored(i, e) <==> old(self).stored(i, e));
                    assert(mid.value_of(i, e) == old(self).value_of(i, e));
                    assert(self.stored(i, e) <==> mid.stored(i, e));
                }
                assert forall|i: int|
                    #[trigger] self.stored(i, entity as int) implies self.value_of(
                    i,
                    entity as int,
                ) == old(self).value_of(i, entity as int) by {
                    assert(self.stored(i, entity as int) <==> mid.stored(i, entity as int) && !(i
                        == index as int));
                    assert(mid.stored(i, entity as int) ==> mid.value_of(i, entity as int)
                        == old(self).value_of(i, entity as int));
                }
                assert forall|i: int| #[trigger]
                    self.stored(i, entity as int) <==> (old(self).stored(i, entity as int) && !(
                    exists|j: int| 0 <= j < k + 1 && #[trigger] indices@[j] == i)) by {
                    if exists|j: int| 0 <= j < k + 1 && #[trigger] indices@[j] == i {
                        let j = choose|j: int| 0 <= j < k + 1 && #[trigger] indices@[j] == i;
                        if j < k {
                            assert(!mid.stored(i, entity as int));
                        } else {
                            assert(i == index as int);
                        }
                    }
                }
            }
            k += 1;
        }
        proof {
            assert forall|i: int, e: int| #[trigger]
                self.stored(i, e) <==> (old(self).stored(i, e) && !(e == mentity.entity
                    && mentity.components.has(i))) by {
                if e == mentity.entity as int && mentity.components.has(i) {
                    let j = choose|j: int|
                        0 <= j < indices@.len() && #[trigger] indices@[j] == i;
                    assert(!self.stored(i, entity as int));
                }
            }
            assert forall|i: int, e: int|
                !(e == mentity.entity && mentity.components.has(i)) && old(self).stored(i, e)
                    implies #[trigger] self.value_of(i, e) == old(self).value_of(i, e) by {
                if e == mentity.entity as int {
                    if exists|j: int| 0 <= j < indices@.len() && #[trigger] indices@[j] == i {
                        assert(mentity.components.has(i));
                    }
                    assert(self.stored(i, entity as int) <==> (old(self).stored(i, entity as int)
                        && !(exists|j: int| 0 <= j < indices@.len() && #[trigger] indices@[j]
                        == i)));
                    assert(self.stored(i, entity as int));
                    assert(self.value_of(i, entity as int) == old(self).value_of(
                        i,
                        entity as int,
                    ));
                }
            }
        }
    }

    /// Tests whether a component of type index `index` is attached to the
    /// entity.
    pub fn has_component(&self, entity: Entity, index: usize) -> (r: bool)
        ensures
            r == self.stored(index as int, entity as int),
    {
        match self.stores.get(index) {
            Some(table) => table.try_get(entity).is_some(),
            None => false,
        }
    }

    /// Returns a reference to a component of an entity, if present.
    pub fn try_get(&self, entity: Entity, index: usize) -> (r: Option<&C>)
        ensures
            match r {
                Some(v) => self.stored(index as int, entity as int) && *v == self.value_of(
                    index as int,
                    entity as int,
                ),
                None => !self.stored(index as int, entity as int),
            },
    {
        match self.stores.get(index) {
            Some(table) => table.try_get(entity),
            None => None,
        }
    }

    /// Returns a reference to a component of an entity, which must be
    /// attached.
    pub fn get(&self, entity: Entity, index: usize) -> (r: &C)
        requires
            self.stored(index as int, entity as int),
        ensures
            *r == self.value_of(index as int, entity as int),
    {
        match self.try_get(entity, index) {
            Some(v) => v,
            None => unreached(),
        }
    }

    /// Returns a mutable reference to a component of an entity, which must
    /// be attached.
    pub fn get_mut(&mut self, entity: Entity, index: usize) -> (r: &mut C)
        requires
            old(self).stored(index as int, entity as int),
        ensures
            *r == old(self).value_of(index as int, entity as int),
            forall|i: int| #[trigger] final(self).has_table(i) <==> old(self).has_table(i),
            forall|i: int, e: int| #[trigger]
                final(self).stored(i, e) <==> old(self).stored(i, e),
            final(self).value_of(index as int, entity as int) == *final(r),
            forall|i: int, e: int|
                !(i == index && e == entity) && old(self).stored(i, e)
                    ==> #[trigger] final(self).value_of(i, e) == old(self).value_of(i, e),
    {
        let table = self.stores.get_mut(index);
        table.get_mut(entity)
    }

    /// Returns a reference to the table for a type index, if it exists.
    pub fn get_store(&self, index: usize) -> (r: Option<&DefaultStore<C>>)
        ensures
            match r {
                Some(t) => self.has_table(index as int) && *t == self.table_at(index as int),
                None => !self.has_table(index as int),
            },
    {
        self.stores.get(index)
    }

    /// Returns a mutable reference to the table for a type index, which must
    /// exist.
    pub fn get_store_mut(&mut self, index: usize) -> (r: &mut DefaultStore<C>)
        requires
            old(self).has_table(index as int),
        ensures
            *r == old(self).table_at(index as int),
            forall|i: int| #[trigger] final(self).has_table(i) <==> old(self).has_table(i),
            final(self).table_at(index as int) == *final(r),
            forall|i: int|
                i != index && old(self).has_table(i) ==> #[trigger] final(self).table_at(i)
                    == old(self).table_at(i),
    {
        self.stores.get_mut(index)
    }
}

} // verus!
