//! Identification of entities using groups.
//!
//! A group has a name and can contain multiple entities, and an entity can
//! belong to multiple groups. The map and the per-entity group sets are kept
//! in step by the manager, which routes every mutation through here.

use vstd::prelude::*;
use vstd::pervasive::unreached;
use crate::bitset::BitSet;
use crate::entity::{Entity, MetaEntity};

verus! {

/// A `GroupMap` keeps track of which entities belong to which named group.
pub struct GroupMap {
    groups: Vec<(String, BitSet)>,
}

impl GroupMap {
    /// The group names currently known, in creation order.
    pub closed spec fn names(self) -> Seq<Seq<char>> {
        self.groups@.map(|k: int, g: (String, BitSet)| g.0@)
    }

    /// Whether a group named `n` exists.
    pub open spec fn has_group(self, n: Seq<char>) -> bool {
        exists|k: int| 0 <= k < self.names().len() && self.names()[k] == n
    }

    /// Whether the group at position `k` holds entity `e`.
    pub closed spec fn member_at(self, k: int, e: int) -> bool {
        self.groups@[k].1.has(e)
    }

    /// Whether the group named `n` holds entity `e`.
    pub open spec fn member_of(self, n: Seq<char>, e: int) -> bool {
        exists|k: int|
            0 <= k < self.names().len() && self.names()[k] == n && #[trigger] self.member_at(k, e)
    }

    /// Well-formed: no group name occurs twice.
    pub open spec fn wf(self) -> bool {
        forall|k1: int, k2: int|
            #![trigger self.names()[k1], self.names()[k2]]
            0 <= k1 < k2 < self.names().len() ==> self.names()[k1] != self.names()[k2]
    }

    /// Distinct positions of a well-formed map hold distinct names.
    proof fn lemma_distinct(&self, i: int, j: int)
        requires
            self.wf(),
            0 <= i < self.names().len(),
            0 <= j < self.names().len(),
            i != j,
        ensures
            self.names()[i] != self.names()[j],
    {
        if i < j {
            assert(self.names()[i] != self.names()[j]);
        } else {
            assert(self.names()[j] != self.names()[i]);
        }
    }

    /// Creates an empty `GroupMap`.
    pub fn new() -> (r: GroupMap)
        ensures
            r.wf(),
            r.names() == Seq::<Seq<char>>::empty(),
            forall|n: Seq<char>, e: int| !r.member_of(n, e),
    {
        let r = GroupMap { groups: Vec::new() };
        proof {
            assert(r.names() =~= Seq::<Seq<char>>::empty());
        }
        r
    }

    /// The number of groups currently known.
    pub fn group_count(&self) -> (r: usize)
        ensures
            r == self.names().len(),
    {
        self.groups.len()
    }

    /// Finds the position of the group named `name`, if it exists.
    fn position_of(&self, name: &str) -> (r: Option<usize>)
        ensures
            match r {
                Some(k) => k < self.names().len() && self.names()[k as int] == name@,
                None => !self.has_group(name@),
            },
    {
        let wanted: String = name.to_owned();
        let mut k: usize = 0;
        while k < self.groups.len()
            invariant
                k <= self.names().len(),
                wanted@ == name@,
                forall|j: int| 0 <= j < k ==> self.names()[j] != name@,
            decreases self.names().len() - k,
        {
            if self.groups[k].0 == wanted {
                assert(self.names()[k as int] == name@);
                return Some(k);
            }
            k += 1;
        }
        None
    }

    /// Adds `entity` to the group at position `k`.
    fn add_member(&mut self, k: usize, entity: Entity)
        requires
            old(self).wf(),
            k < old(self).names().len(),
        ensures
            final(self).wf(),
            final(self).names() == old(self).names(),
            forall|n: Seq<char>, e: int| #[trigger]
                final(self).member_of(n, e) <==> (old(self).member_of(n, e) || (n == old(
                    self,
                ).names()[k as int] && e == entity)),
    {
        let cell = &mut self.groups[k];
        cell.1.insert(entity);
        proof {
            assert(self.names() =~= old(self).names()) by {
                assert forall|j: int| 0 <= j < self.names().len() implies self.names()[j] == old(
                    self,
                ).names()[j] by {
                    assert(self.groups@[j].0 == old(self).groups@[j].0);
                }
            }
            assert forall|n: Seq<char>, e: int| #[trigger]
                self.member_of(n, e) <==> (old(self).member_of(n, e) || (n == old(
                    self,
                ).names()[k as int] && e == entity)) by {
                if self.member_of(n, e) {
                    let j = choose|j: int|
                        0 <= j < self.names().len() && self.names()[j] == n
                            && #[trigger] self.member_at(j, e);
                    if j == k {
                        if e != entity {
                            assert(old(self).member_at(j, e));
                        }
                    } else {
                        assert(self.groups@[j].1 == old(self).groups@[j].1);
                        assert(old(self).member_at(j, e));
                    }
                }
                if old(self).member_of(n, e) {
                    let j = choose|j: int|
                        0 <= j < old(self).names().len() && old(self).names()[j] == n
                            && #[trigger] old(self).member_at(j, e);
                    if j == k {
                        assert(self.member_at(j, e));
                    } else {
                        assert(self.groups@[j].1 == old(self).groups@[j].1);
                        assert(self.member_at(j, e));
                    }
                }
                if n == old(self).names()[k as int] && e == entity {
                    assert(self.member_at(k as int, e));
                    assert(self.member_of(n, e));
                }
            }
        }
    }

    /// Removes `entity` from the group at position `k`.
    fn remove_member(&mut self, k: usize, entity: Entity)
        requires
            old(self).wf(),
            k < old(self).names().len(),
        ensures
            final(self).wf(),
            final(self).names() == old(self).names(),
            forall|n: Seq<char>, e: int| #[trigger]
                final(self).member_of(n, e) <==> (old(self).member_of(n, e) && !(n == old(
                    self,
                ).names()[k as int] && e == entity)),
    {
        let cell = &mut self.groups[k];
        cell.1.remove(entity);
        proof {
            assert(self.names() =~= old(self).names()) by {
                assert forall|j: int| 0 <= j < self.names().len() implies self.names()[j] == old(
                    self,
                ).names()[j] by {
                    assert(self.groups@[j].0 == old(self).groups@[j].0);
                }
            }
            assert forall|n: Seq<char>, e: int| #[trigger]
                self.member_of(n, e) <==> (old(self).member_of(n, e) && !(n == old(
                    self,
                ).names()[k as int] && e == entity)) by {
                if self.member_of(n, e) {
                    let j = choose|j: int|
                        0 <= j < self.names().len() && self.names()[j] == n
                            && #[trigger] self.member_at(j, e);
                    if j == k {
                        assert(old(self).member_at(j, e));
                        assert(e != entity);
                    } else {
                        assert(self.groups@[j].1 == old(self).groups@[j].1);
                        assert(old(self).member_at(j, e));
                        if n == old(self).names()[k as int] {
                            old(self).lemma_distinct(j, k as int);
                        }
                    }
                }
                if old(self).member_of(n, e) && !(n == old(self).names()[k as int] && e
                    == entity) {
                    let j = choose|j: int|
                        0 <= j < old(self).names().len() && old(self).names()[j] == n
                            && #[trigger] old(self).member_at(j, e);
                    if j == k {
                        assert(n == old(self).names()[k as int]);
                        assert(e != entity);
                        assert(self.member_at(j, e));
                    } else {
                        assert(self.groups@[j].1 == old(self).groups@[j].1);
                        assert(self.member_at(j, e));
                    }
                }
            }
        }
    }

    /// Ensures the group named `name` exists, creating it empty if needed.
    pub fn ensure(&mut self, name: &str)
        requires
            old(self).wf(),
        ensures
            final(self).wf(),
            final(self).names() == if old(self).has_group(name@) {
                old(self).names()
            } else {
                old(self).names().push(name@)
            },
            final(self).has_group(name@),
            forall|n: Seq<char>, e: int| #[trigger]
                final(self).member_of(n, e) <==> old(self).member_of(n, e),
    {
        if self.position_of(name).is_none() {
            self.groups.push((name.to_owned(), BitSet::new()));
            proof {
                assert(self.names() =~= old(self).names().push(name@));
                let nk = self.names().len() - 1;
                assert(self.names()[nk] == name@);
                assert forall|k1: int, k2: int|
                    #![trigger self.names()[k1], self.names()[k2]]
                    0 <= k1 < k2 < self.names().len() implies self.names()[k1]
                    != self.names()[k2] by {
                    if k2 == nk {
                        assert(self.names()[k1] == old(self).names()[k1]);
                        assert(!old(self).has_group(name@));
                    }
                }
                assert forall|n: Seq<char>, e: int| #[trigger]
                    self.member_of(n, e) <==> old(self).member_of(n, e) by {
                    if self.member_of(n, e) {
                        let j = choose|j: int|
                            0 <= j < self.names().len() && self.names()[j] == n
                                && #[trigger] self.member_at(j, e);
                        if j == nk {
                            assert(!self.groups@[j].1.has(e));
                        } else {
                            assert(old(self).member_at(j, e));
                        }
                    }
                    if old(self).member_of(n, e) {
                        let j = choose|j: int|
                            0 <= j < old(self).names().len() && old(self).names()[j] == n
                                && #[trigger] old(self).member_at(j, e);
                        assert(self.member_at(j, e));
                    }
                }
            }
        }
    }

    /// Inserts an entity into a group, creating the group if needed, and
    /// records the membership in the entity's own record.
    pub fn insert_in(&mut self, mentity: &mut MetaEntity, name: &str)
        requires
            old(self).wf(),
            old(mentity).wf(),
        ensures
            final(self).wf(),
            final(mentity).wf(),
            final(mentity).entity == old(mentity).entity,
            final(mentity).is_awake == old(mentity).is_awake,
            final(mentity).tag == old(mentity).tag,
            final(mentity).components == old(mentity).components,
            forall|n: Seq<char>| #[trigger]
                final(mentity).groups.has(n) <==> (old(mentity).groups.has(n) || n == name@),
            final(self).names() == if old(self).has_group(name@) {
                old(self).names()
            } else {
                old(self).names().push(name@)
            },
            forall|n: Seq<char>, e: int| #[trigger]
                final(self).member_of(n, e) <==> (old(self).member_of(n, e) || (n == name@ && e
                    == old(mentity).entity)),
    {
        mentity.groups.insert(name);
        self.ensure(name);
        let k = match self.position_of(name) {
            Some(k) => k,
            None => unreached(),
        };
        self.add_member(k, mentity.entity);
    }

    /// Removes an entity from a group, if the group exists, and clears the
    /// membership from the entity's own record.
    pub fn remove_from(&mut self, mentity: &mut MetaEntity, name: &str)
        requires
            old(self).wf(),
            old(mentity).wf(),
        ensures
            final(self).wf(),
            final(mentity).wf(),
            final(mentity).entity == old(mentity).entity,
            final(mentity).is_awake == old(mentity).is_awake,
            final(mentity).tag == old(mentity).tag,
            final(mentity).components == old(mentity).components,
            forall|n: Seq<char>| #[trigger]
                final(mentity).groups.has(n) <==> (old(mentity).groups.has(n) && n != name@),
            final(self).names() == old(self).names(),
            forall|n: Seq<char>, e: int| #[trigger]
                final(self).member_of(n, e) <==> (old(self).member_of(n, e) && !(n == name@ && e
                    == old(mentity).entity)),
    {
        match self.position_of(name) {
            Some(k) => {
                self.remove_member(k, mentity.entity);
            },
            None => {
                proof {
                    assert forall|n: Seq<char>, e: int| #[trigger]
                        self.member_of(n, e) <==> (old(self).member_of(n, e) && !(n == name@ && e
                            == old(mentity).entity)) by {
                        if self.member_of(n, e) && n == name@ {
                            assert(self.has_group(n));
                        }
                    }
                }
            },
        }
        mentity.groups.remove(name);
    }

    /// Removes an entity from every group and clears the group set of its
    /// record.
    pub fn clear_entity(&mut self, mentity: &mut MetaEntity)
        requires
            old(self).wf(),
        ensures
            final(self).wf(),
            final(mentity).wf(),
            final(mentity).entity == old(mentity).entity,
            final(mentity).is_awake == old(mentity).is_awake,
            final(mentity).tag == old(mentity).tag,
            final(mentity).components == old(mentity).components,
            forall|n: Seq<char>| !final(mentity).groups.has(n),
            final(self).names() == old(self).names(),
            forall|n: Seq<char>, e: int| #[trigger]
                final(self).member_of(n, e) <==> (old(self).member_of(n, e) && e != old(
                    mentity,
                ).entity),
    {
        let entity = mentity.entity;
        let mut k: usize = 0;
        while k < self.groups.len()
            invariant
                self.wf(),
                k <= self.names().len(),
                self.names() == old(self).names(),
                forall|n: Seq<char>, e: int|
                    e != entity ==> (#[trigger] self.member_of(n, e) <==> old(self).member_of(
                        n,
                        e,
                    )),
                forall|j: int|
                    0 <= j < k ==> !#[trigger] self.member_at(j, entity as int),
                forall|j: int|
                    k <= j < self.names().len() ==> (#[trigger] self.member_at(j, entity as int)
                        <==> old(self).member_at(j, entity as int)),
            decreases self.names().len() - k,
        {
            let ghost mid = *self;
            self.remove_member(k, entity);
            proof {
                assert forall|j: int|
                    0 <= j < k + 1 implies !#[trigger] self.member_at(j, entity as int) by {
                    if self.member_at(j, entity as int) {
                        assert(self.member_of(self.names()[j], entity as int));
                        assert(mid.member_of(self.names()[j], entity as int) && !(self.names()[j]
                            == mid.names()[k as int]));
                        if j < k {
                            let j2 = choose|j2: int|
                                0 <= j2 < mid.names().len() && mid.names()[j2] == self.names()[j]
                                    && #[trigger] mid.member_at(j2, entity as int);
                            if j2 < k {
                                assert(!mid.member_at(j2, entity as int));
                            } else {
                                mid.lemma_distinct(j, j2);
                            }
                        }
                    }
                }
                assert forall|j: int|
                    k + 1 <= j < self.names().len() implies (#[trigger] self.member_at(
                    j,
                    entity as int,
                ) <==> old(self).member_at(j, entity as int)) by {
                    if self.member_at(j, entity as int) {
                        assert(self.member_of(self.names()[j], entity as int));
                        let j2 = choose|j2: int|
                            0 <= j2 < mid.names().len() && mid.names()[j2] == self.names()[j]
                                && #[trigger] mid.member_at(j2, entity as int);
                        if j2 != j {
                            mid.lemma_distinct(j, j2);
                        }
                    }
                    if old(self).member_at(j, entity as int) {
                        assert(mid.member_at(j, entity as int));
                        assert(mid.member_of(mid.names()[j], entity as int));
                        assert(self.member_of(mid.names()[j], entity as int));
                        let j2 = choose|j2: int|
                            0 <= j2 < self.names().len() && self.names()[j2] == mid.names()[j]
                                && #[trigger] self.member_at(j2, entity as int);
                        if j2 != j {
                            self.lemma_distinct(j, j2);
                        }
                    }
                }
            }
            k += 1;
        }
        mentity.groups.clear();
        proof {
            assert forall|n: Seq<char>, e: int| #[trigger]
                self.member_of(n, e) <==> (old(self).member_of(n, e) && e != old(
                    mentity,
                ).entity) by {
                if e == entity as int && self.member_of(n, e) {
                    let j = choose|j: int|
                        0 <= j < self.names().len() && self.names()[j] == n
                            && #[trigger] self.member_at(j, e);
                    assert(!self.member_at(j, entity as int));
                }
            }
        }
    }

    /// Returns the entities of a group, in ascending order of identifier; an
    /// unknown group name yields no entity.
    pub fn get(&self, name: &str) -> (r: Vec<Entity>)
        requires
            self.wf(),
        ensures
            forall|e: int|
                (exists|j: int| 0 <= j < r@.len() && #[trigger] r@[j] == e) <==> self.member_of(
                    name@,
                    e,
                ),
            forall|j1: int, j2: int| 0 <= j1 < j2 < r@.len() ==> r@[j1] < r@[j2],
    {
        match self.position_of(name) {
            Some(k) => {
                let r = self.groups[k].1.to_indices();
                proof {
                    assert forall|e: int|
                        (exists|j: int| 0 <= j < r@.len() && #[trigger] r@[j] == e)
                            <==> self.member_of(name@, e) by {
                        if exists|j: int| 0 <= j < r@.len() && #[trigger] r@[j] == e {
                            assert(self.member_at(k as int, e));
                            assert(self.member_of(name@, e));
                        }
                        if self.member_of(name@, e) {
                            let j = choose|j: int|
                                0 <= j < self.names().len() && self.names()[j] == name@
                                    && #[trigger] self.member_at(j, e);
                            if j != k {
                                self.lemma_distinct(j, k as int);
                            }
                            assert(self.groups@[k as int].1.has(e));
                        }
                    }
                }
                r
            },
            None => {
                let r: Vec<Entity> = Vec::new();
                proof {
                    assert forall|e: int|
                        (exists|j: int| 0 <= j < r@.len() && #[trigger] r@[j] == e)
                            <==> self.member_of(name@, e) by {
                        if self.member_of(name@, e) {
                            assert(self.has_group(name@));
                        }
                    }
                }
                r
            },
        }
    }

    /// Forgets an entity: removes it from every group its record names,
    /// without touching the record itself. Every group the record names must
    /// exist; the manager maintains that.
    pub fn forget(&mut self, mentity: &MetaEntity)
        requires
            old(self).wf(),
            mentity.wf(),
            forall|n: Seq<char>| #[trigger] mentity.groups.has(n) ==> old(self).has_group(n),
        ensures
            final(self).wf(),
            final(self).names() == old(self).names(),
            forall|n: Seq<char>, e: int| #[trigger]
                final(self).member_of(n, e) <==> (old(self).member_of(n, e) && !(e
                    == mentity.entity && mentity.groups.has(n))),
    {
        let entity = mentity.entity;
        let count = mentity.groups.len();
        let mut i: usize = 0;
        while i < count
            invariant
                count == mentity.groups.names().len(),
                mentity.wf(),
                i <= count,
                self.wf(),
                self.names() == old(self).names(),
                forall|n: Seq<char>| #[trigger] mentity.groups.has(n) ==> old(self).has_group(n),
                forall|n: Seq<char>, e: int| #[trigger]
                    self.member_of(n, e) <==> (old(self).member_of(n, e) && !(e == entity && (
                    exists|j: int|
                        0 <= j < i && #[trigger] mentity.groups.names()[j] == n))),
            decreases count - i,
        {
            let name = mentity.groups.index(i);
            proof {
                assert(mentity.groups.has(mentity.groups.names()[i as int]));
            }
            let k = match self.position_of(name.as_str()) {
                Some(k) => k,
                None => unreached(),
            };
            let ghost mid = *self;
            self.remove_member(k, entity);
            proof {
                assert forall|n: Seq<char>, e: int| #[trigger]
                    self.member_of(n, e) <==> (old(self).member_of(n, e) && !(e == entity && (
                    exists|j: int|
                        0 <= j < i + 1 && #[trigger] mentity.groups.names()[j] == n))) by {
                    if self.member_of(n, e) {
                        assert(mid.member_of(n, e) && !(n == mid.names()[k as int] && e
                            == entity));
                        if e == entity && (exists|j: int|
                            0 <= j < i + 1 && #[trigger] mentity.groups.names()[j] == n)
                             {
                            let j = choose|j: int|
                                0 <= j < i + 1 && #[trigger] mentity.groups.names()[j] == n;
                            if j < i {
                                assert(!mid.member_of(n, e));
                            } else {
                                assert(n == mentity.groups.names()[i as int]);
                                assert(n == mid.names()[k as int]);
                            }
                        }
                    }
                    if old(self).member_of(n, e) && !(e == entity && (exists|j: int|
                        0 <= j < i + 1 && #[trigger] mentity.groups.names()[j] == n)) {
                        assert(mid.member_of(n, e));
                        if n == mid.names()[k as int] && e == entity {
                            assert(mentity.groups.names()[i as int] == n);
                        }
                        assert(self.member_of(n, e));
                    }
                }
            }
            i += 1;
        }
        proof {
            assert forall|n: Seq<char>, e: int| #[trigger]
                self.member_of(n, e) <==> (old(self).member_of(n, e) && !(e == mentity.entity
                    && mentity.groups.has(n))) by {
                if mentity.groups.has(n) {
                    let j = choose|j: int|
                        0 <= j < mentity.groups.names().len() && mentity.groups.names()[j] == n;
                    assert(0 <= j < count && mentity.groups.names()[j] == n);
                }
            }
        }
    }
}

} // verus!
