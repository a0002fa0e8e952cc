//! Identification of entities using tags.
//!
//! A tag names at most one entity at a time, and an entity carries at most
//! one tag. Binding a tag that already names another entity is a programmer
//! error and fails loudly; the contracts here rule it out.

use vstd::prelude::*;
use vstd::pervasive::unreached;
use crate::entity::{Entity, MetaEntity};

verus! {

/// A `TagMap` keeps track of which tag names which entity.
pub struct TagMap {
    tags: Vec<(String, Entity)>,
}

impl TagMap {
    /// The tag names currently bound, in binding order.
    pub closed spec fn tag_names(self) -> Seq<Seq<char>> {
        self.tags@.map(|k: int, t: (String, Entity)| t.0@)
    }

    /// Whether the binding at position `k` names entity `e`.
    pub closed spec fn binds_at(self, k: int, e: int) -> bool {
        self.tags@[k].1 == e
    }

    /// Whether some entity is tagged `n`.
    pub open spec fn bound(self, n: Seq<char>) -> bool {
        exists|k: int| 0 <= k < self.tag_names().len() && self.tag_names()[k] == n
    }

    /// Whether entity `e` is tagged `n`.
    pub open spec fn binds(self, n: Seq<char>, e: int) -> bool {
        exists|k: int|
            0 <= k < self.tag_names().len() && self.tag_names()[k] == n && #[trigger] self.binds_at(
                k,
                e,
            )
    }

    /// Well-formed: no tag name occurs twice.
    pub open spec fn wf(self) -> bool {
        forall|k1: int, k2: int|
            #![trigger self.tag_names()[k1], self.tag_names()[k2]]
            0 <= k1 < k2 < self.tag_names().len() ==> self.tag_names()[k1]
                != self.tag_names()[k2]
    }

    /// Distinct positions of a well-formed map hold distinct names.
    proof fn lemma_distinct(&self, i: int, j: int)
        requires
            self.wf(),
            0 <= i < self.tag_names().len(),
            0 <= j < self.tag_names().len(),
            i != j,
        ensures
            self.tag_names()[i] != self.tag_names()[j],
    {
        if i < j {
            assert(self.tag_names()[i] != self.tag_names()[j]);
        } else {
            assert(self.tag_names()[j] != self.tag_names()[i]);
        }
    }


    /// A tag names at most one entity.
    pub proof fn lemma_binds_unique(&self, n: Seq<char>, e1: int, e2: int)
        requires
            self.wf(),
            self.binds(n, e1),
            self.binds(n, e2),
        ensures
            e1 == e2,
    {
        let k1 = choose|k: int|
            0 <= k < self.tag_names().len() && self.tag_names()[k] == n && #[trigger] self.binds_at(
                k,
                e1,
            );
        let k2 = choose|k: int|
            0 <= k < self.tag_names().len() && self.tag_names()[k] == n && #[trigger] self.binds_at(
                k,
                e2,
            );
        if k1 != k2 {
            self.lemma_distinct(k1, k2);
        }
    }

    /// Creates an empty `TagMap`.
    pub fn new() -> (r: TagMap)
        ensures
            r.wf(),
            forall|n: Seq<char>| !r.bound(n),
            forall|n: Seq<char>, e: int| !r.binds(n, e),
    {
        let r = TagMap { tags: Vec::new() };
        proof {
            assert(r.tag_names() =~= Seq::<Seq<char>>::empty());
        }
        r
    }

    /// Finds the position of the binding named `name`, if it exists.
    fn position_of(&self, name: &str) -> (r: Option<usize>)
        ensures
            match r {
                Some(k) => k < self.tag_names().len() && self.tag_names()[k as int] == name@,
                None => !self.bound(name@),
            },
    {
        let wanted: String = name.to_owned();
        let mut k: usize = 0;
        while k < self.tags.len()
            invariant
                k <= self.tag_names().len(),
                wanted@ == name@,
                forall|j: int| 0 <= j < k ==> self.tag_names()[j] != name@,
            decreases self.tag_names().len() - k,
        {
            if self.tags[k].0 == wanted {
                assert(self.tag_names()[k as int] == name@);
                return Some(k);
            }
            k += 1;
        }
        None
    }

    /// Removes the binding named `name`, if it exists.
    fn remove_named(&mut self, name: &str)
        requires
            old(self).wf(),
        ensures
            final(self).wf(),
            forall|n: Seq<char>| #[trigger] final(self).bound(n) <==> (old(self).bound(n) && n
                != name@),
            forall|n: Seq<char>, e: int| #[trigger]
                final(self).binds(n, e) <==> (old(self).binds(n, e) && n != name@),
    {
        match self.position_of(name) {
            Some(k) => {
                self.tags.remove(k);
                proof {
                    assert(self.tag_names() =~= old(self).tag_names().remove(k as int));
                    assert forall|n: Seq<char>, e: int| #[trigger]
                        self.binds(n, e) <==> (old(self).binds(n, e) && n != name@) by {
                        if self.binds(n, e) {
                            let j = choose|j: int|
                                0 <= j < self.tag_names().len() && self.tag_names()[j] == n
                                    && #[trigger] self.binds_at(j, e);
                            let j2: int = if j < k { j } else { j + 1 };
                            assert(self.tags@[j] == old(self).tags@[j2]);
                            assert(old(self).tag_names()[j2] == n && old(self).binds_at(j2, e));
                            old(self).lemma_distinct(j2, k as int);
                        }
                        if old(self).binds(n, e) && n != name@ {
                            let j = choose|j: int|
                                0 <= j < old(self).tag_names().len() && old(self).tag_names()[j]
                                    == n && #[trigger] old(self).binds_at(j, e);
                            assert(j != k);
                            let j2: int = if j < k { j } else { j - 1 };
                            assert(self.tags@[j2] == old(self).tags@[j]);
                            assert(self.tag_names()[j2] == n && self.binds_at(j2, e));
                        }
                    }
                    assert forall|n: Seq<char>| #[trigger]
                        self.bound(n) <==> (old(self).bound(n) && n != name@) by {
                        if self.bound(n) {
                            let j = choose|j: int|
                                0 <= j < self.tag_names().len() && self.tag_names()[j] == n;
                            let j2: int = if j < k { j } else { j + 1 };
                            assert(old(self).tag_names()[j2] == n);
                            old(self).lemma_distinct(j2, k as int);
                        }
                        if old(self).bound(n) && n != name@ {
                            let j = choose|j: int|
                                0 <= j < old(self).tag_names().len() && old(self).tag_names()[j]
                                    == n;
                            assert(j != k);
                            let j2: int = if j < k { j } else { j - 1 };
                            assert(self.tag_names()[j2] == n);
                        }
                    }
                    assert forall|k1: int, k2: int|
                        #![trigger self.tag_names()[k1], self.tag_names()[k2]]
                        0 <= k1 < k2 < self.tag_names().len() implies self.tag_names()[k1]
                        != self.tag_names()[k2] by {
                        let i1: int = if k1 < k { k1 } else { k1 + 1 };
                        let i2: int = if k2 < k { k2 } else { k2 + 1 };
                        assert(self.tag_names()[k1] == old(self).tag_names()[i1]);
                        assert(self.tag_names()[k2] == old(self).tag_names()[i2]);
                        old(self).lemma_distinct(i1, i2);
                    }
                }
            },
            None => {
                proof {
                    assert forall|n: Seq<char>, e: int| #[trigger]
                        self.binds(n, e) <==> (old(self).binds(n, e) && n != name@) by {
                        if self.binds(n, e) && n == name@ {
                            assert(self.bound(n));
                        }
                    }
                    assert forall|n: Seq<char>| #[trigger]
                        self.bound(n) <==> (old(self).bound(n) && n != name@) by {}
                }
            },
        }
    }

    /// Binds `tag` to the entity, releasing the entity's previous tag, and
    /// returns that previous tag.
    ///
    /// A tag that already names another entity must not be bound again; such
    /// a call is a programmer error and fails loudly.
    pub fn insert(&mut self, mentity: &mut MetaEntity, tag: &str) -> (r: Option<String>)
        requires
            old(self).wf(),
            old(self).bound(tag@) ==> old(mentity).tag_name() === Some(tag@),
        ensures
            final(self).wf(),
            r == old(mentity).tag,
            final(mentity).entity == old(mentity).entity,
            final(mentity).is_awake == old(mentity).is_awake,
            final(mentity).groups == old(mentity).groups,
            final(mentity).components == old(mentity).components,
            final(mentity).tag_name() === Some(tag@),
            forall|n: Seq<char>, e: int| #[trigger]
                final(self).binds(n, e) <==> ((n == tag@ && e == old(mentity).entity) || (old(
                    self,
                ).binds(n, e) && n != tag@ && (match old(mentity).tag_name() {
                    Some(p) => n != p,
                    None => true,
                }))),
    {
        let previous_tag = self.take_tag_field(mentity);
        match &previous_tag {
            Some(p) => {
                self.remove_named(p.as_str());
            },
            None => {},
        }
        let ghost cleared = *self;
        match self.position_of(tag) {
            Some(k) => {
                // The tag would name a second entity: the contract excludes it.
                proof {
                    assert(self.tag_names()[k as int] == tag@);
                    assert(self.bound(tag@));
                }
                unreached()
            },
            None => {},
        }
        mentity.tag = Some(tag.to_owned());
        self.tags.push((tag.to_owned(), mentity.entity));
        proof {
            assert(self.tag_names() =~= cleared.tag_names().push(tag@));
            let nk = self.tag_names().len() - 1;
            assert(self.tag_names()[nk] == tag@);
            assert(self.binds_at(nk, mentity.entity as int));
            assert forall|k1: int, k2: int|
                #![trigger self.tag_names()[k1], self.tag_names()[k2]]
                0 <= k1 < k2 < self.tag_names().len() implies self.tag_names()[k1]
                != self.tag_names()[k2] by {
                if k2 == nk {
                    assert(self.tag_names()[k1] == cleared.tag_names()[k1]);
                    assert(!cleared.bound(tag@));
                }
            }
            assert forall|n: Seq<char>, e: int| #[trigger]
                self.binds(n, e) <==> ((n == tag@ && e == old(mentity).entity) || (cleared.binds(
                    n,
                    e,
                ) && n != tag@)) by {
                if self.binds(n, e) {
                    let j = choose|j: int|
                        0 <= j < self.tag_names().len() && self.tag_names()[j] == n
                            && #[trigger] self.binds_at(j, e);
                    if j < nk {
                        assert(self.tags@[j] == cleared.tags@[j]);
                        assert(cleared.tag_names()[j] == n && cleared.binds_at(j, e));
                        assert(!cleared.bound(tag@));
                        if n == tag@ {
                            assert(cleared.tag_names()[j] == tag@);
                        }
                    }
                }
                if cleared.binds(n, e) && n != tag@ {
                    let j = choose|j: int|
                        0 <= j < cleared.tag_names().len() && cleared.tag_names()[j] == n
                            && #[trigger] cleared.binds_at(j, e);
                    assert(self.tags@[j] == cleared.tags@[j]);
                    assert(self.tag_names()[j] == n && self.binds_at(j, e));
                }
            }
        }
        previous_tag
    }

    /// Takes the tag out of the entity's record, leaving none.
    fn take_tag_field(&mut self, mentity: &mut MetaEntity) -> (r: Option<String>)
        ensures
            *final(self) == *old(self),
            r == old(mentity).tag,
            final(mentity).tag is None,
            final(mentity).entity == old(mentity).entity,
            final(mentity).is_awake == old(mentity).is_awake,
            final(mentity).groups == old(mentity).groups,
            final(mentity).components == old(mentity).components,
    {
        mentity.tag.take()
    }

    /// Removes the tag of an entity, if it carries one.
    pub fn remove(&mut self, mentity: &mut MetaEntity)
        requires
            old(self).wf(),
        ensures
            final(self).wf(),
            final(mentity).tag is None,
            final(mentity).entity == old(mentity).entity,
            final(mentity).is_awake == old(mentity).is_awake,
            final(mentity).groups == old(mentity).groups,
            final(mentity).components == old(mentity).components,
            forall|n: Seq<char>, e: int| #[trigger]
                final(self).binds(n, e) <==> (old(self).binds(n, e) && (match old(
                    mentity,
                ).tag_name() {
                    Some(p) => n != p,
                    None => true,
                })),
    {
        let previous_tag = self.take_tag_field(mentity);
        match &previous_tag {
            Some(p) => {
                self.remove_named(p.as_str());
            },
            None => {},
        }
    }

    /// Returns the entity tagged `tag`, if any.
    pub fn get(&self, tag: &str) -> (r: Option<Entity>)
        ensures
            match r {
                Some(e) => self.binds(tag@, e as int),
                None => !self.bound(tag@),
            },
    {
        match self.position_of(tag) {
            Some(k) => {
                let e = self.tags[k].1;
                proof {
                    assert(self.binds_at(k as int, e as int));
                }
                Some(e)
            },
            None => None,
        }
    }

    /// Forgets an entity: releases the tag its record names, without
    /// touching the record itself.
    pub fn forget(&mut self, mentity: &MetaEntity)
        requires
            old(self).wf(),
        ensures
            final(self).wf(),
            forall|n: Seq<char>, e: int| #[trigger]
                final(self).binds(n, e) <==> (old(self).binds(n, e) && (match mentity.tag_name() {
                    Some(p) => n != p,
                    None => true,
                })),
    {
        match &mentity.tag {
            Some(p) => {
                self.remove_named(p.as_str());
            },
            None => {},
        }
    }
}

} // verus!
