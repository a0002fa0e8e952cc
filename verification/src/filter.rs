//! Filtering entities by component types and groups, and the incrementally
//! maintained views built on such filters.
//!
//! A view is updated only from change and removal notifications, never by
//! rescanning the world; the contracts here pin membership exactly, so a
//! replayed notification stream leaves no stale and no missing entry.

use vstd::prelude::*;
use crate::bitset::BitSet;
use crate::strset::NameSet;
use crate::entity::MetaEntity;
use crate::event::Kind;

verus! {

/// A predicate over entity records, deciding which entities a view keeps.
pub trait EntityFilter: Sized {
    /// What the filter accepts.
    spec fn spec_pass(&self, mentity: &MetaEntity) -> bool;

    /// Decides whether a record passes the filter.
    fn pass(&self, mentity: &MetaEntity) -> (r: bool)
        ensures
            r == self.spec_pass(mentity),
    ;
}

/// A filter over required components only.
pub struct Filter {
    mandatory_components: BitSet,
}

impl Filter {
    /// The required component type indices.
    pub closed spec fn mandatory(self) -> Set<int> {
        self.mandatory_components@
    }

    /// Creates a filter that lets every entity pass.
    pub fn new() -> (r: Filter)
        ensures
            r.mandatory() == Set::<int>::empty(),
    {
        let r = Filter { mandatory_components: BitSet::new() };
        proof {
            assert(r.mandatory() =~= Set::<int>::empty());
        }
        r
    }

    /// Requires a component type.
    pub fn insert_mandatory(&mut self, index: usize)
        ensures
            final(self).mandatory() == old(self).mandatory().insert(index as int),
    {
        self.mandatory_components.insert(index);
        proof {
            assert(self.mandatory() =~= old(self).mandatory().insert(index as int));
        }
    }

    /// Tests whether a record holds every required component.
    pub fn check(&self, mentity: &MetaEntity) -> (r: bool)
        ensures
            r <==> (forall|i: int|
                self.mandatory().contains(i) ==> #[trigger] mentity.components.has(i)),
    {
        self.mandatory_components.is_subset(&mentity.components)
    }
}

/// The provided entity filter: required and forbidden component types,
/// required and forbidden groups.
pub struct StandardEntityFilter {
    pub mandatory_components: BitSet,
    pub forbidden_components: BitSet,
    pub mandatory_groups: NameSet,
    pub forbidden_groups: NameSet,
}

impl StandardEntityFilter {
    /// Well-formed: the group name sets hold no duplicate.
    pub open spec fn wf(self) -> bool {
        self.mandatory_groups.wf() && self.forbidden_groups.wf()
    }

    /// What the filter accepts: every required component and group present,
    /// no forbidden component or group present.
    pub open spec fn accepts(self, mentity: MetaEntity) -> bool {
        &&& forall|i: int|
            #[trigger] self.mandatory_components.has(i) ==> mentity.components.has(i)
        &&& forall|i: int| !(#[trigger] self.forbidden_components.has(i) && mentity.components.has(
            i,
        ))
        &&& forall|n: Seq<char>| #[trigger] self.mandatory_groups.has(n) ==> mentity.groups.has(n)
        &&& forall|n: Seq<char>| !(#[trigger] self.forbidden_groups.has(n) && mentity.groups.has(
            n,
        ))
    }

    /// Creates a filter that lets every entity pass.
    pub fn new() -> (r: StandardEntityFilter)
        ensures
            r.wf(),
            forall|m: MetaEntity| r.accepts(m),
    {
        StandardEntityFilter {
            mandatory_components: BitSet::new(),
            forbidden_components: BitSet::new(),
            mandatory_groups: NameSet::new(),
            forbidden_groups: NameSet::new(),
        }
    }

    /// Requires a component type.
    pub fn require_component(&mut self, index: usize)
        requires
            old(self).wf(),
        ensures
            final(self).wf(),
            forall|m: MetaEntity| #[trigger]
                final(self).accepts(m) <==> (old(self).accepts(m) && m.components.has(
                    index as int,
                )),
    {
        self.mandatory_components.insert(index);
        proof {
            assert forall|m: MetaEntity| #[trigger]
                self.accepts(m) <==> (old(self).accepts(m) && m.components.has(index as int)) by {
                if self.accepts(m) {
                    assert(self.mandatory_components.has(index as int));
                    assert(m.components.has(index as int));
                    assert forall|i: int| #[trigger]
                        old(self).mandatory_components.has(i) implies m.components.has(i) by {
                        assert(self.mandatory_components.has(i));
                    }
                    assert(old(self).forbidden_components == self.forbidden_components);
                    assert(old(self).mandatory_groups == self.mandatory_groups);
                    assert(old(self).forbidden_groups == self.forbidden_groups);
                    assert(old(self).accepts(m));
                }
                if old(self).accepts(m) && m.components.has(index as int) {
                    assert forall|i: int| #[trigger]
                        self.mandatory_components.has(i) implies m.components.has(i) by {
                        if i != index {
                            assert(old(self).mandatory_components.has(i));
                        }
                    }
                    assert(old(self).forbidden_components == self.forbidden_components);
                    assert(old(self).mandatory_groups == self.mandatory_groups);
                    assert(old(self).forbidden_groups == self.forbidden_groups);
                    assert(self.accepts(m));
                }
            }
        }
    }

    /// Forbids a component type.
    pub fn forbid_component(&mut self, index: usize)
        requires
            old(self).wf(),
        ensures
            final(self).wf(),
            forall|m: MetaEntity| #[trigger]
                final(self).accepts(m) <==> (old(self).accepts(m) && !m.components.has(
                    index as int,
                )),
    {
        self.forbidden_components.insert(index);
        proof {
            assert forall|m: MetaEntity| #[trigger]
                self.accepts(m) <==> (old(self).accepts(m) && !m.components.has(index as int)) by {
                if self.accepts(m) {
                    assert(self.forbidden_components.has(index as int));
                    assert(!m.components.has(index as int));
                    assert forall|i: int| !(#[trigger] old(self).forbidden_components.has(i)
                        && m.components.has(i)) by {
                        assert(self.forbidden_components.has(i) <==> (old(
                            self,
                        ).forbidden_components.has(i) || i == index));
                    }
                    assert(old(self).mandatory_components == self.mandatory_components);
                    assert(old(self).mandatory_groups == self.mandatory_groups);
                    assert(old(self).forbidden_groups == self.forbidden_groups);
                    assert(old(self).accepts(m));
                }
                if old(self).accepts(m) && !m.components.has(index as int) {
                    assert forall|i: int| !(#[trigger] self.forbidden_components.has(i)
                        && m.components.has(i)) by {
                        if i != index {
                            assert(self.forbidden_components.has(i) ==> old(
                                self,
                            ).forbidden_components.has(i));
                        }
                    }
                    assert(old(self).mandatory_components == self.mandatory_components);
                    assert(old(self).mandatory_groups == self.mandatory_groups);
                    assert(old(self).forbidden_groups == self.forbidden_groups);
                    assert(self.accepts(m));
                }
            }
        }
    }

    /// Requires a group.
    pub fn require_group(&mut self, group: &str)
        requires
            old(self).wf(),
        ensures
            final(self).wf(),
            forall|m: MetaEntity| #[trigger]
                final(self).accepts(m) <==> (old(self).accepts(m) && m.groups.has(group@)),
    {
        self.mandatory_groups.insert(group);
        proof {
            assert forall|m: MetaEntity| #[trigger]
                self.accepts(m) <==> (old(self).accepts(m) && m.groups.has(group@)) by {
                if self.accepts(m) {
                    assert(self.mandatory_groups.has(group@));
                    assert(m.groups.has(group@));
                    assert forall|n: Seq<char>| #[trigger]
                        old(self).mandatory_groups.has(n) implies m.groups.has(n) by {
                        assert(self.mandatory_groups.has(n));
                    }
                    assert(old(self).mandatory_components == self.mandatory_components);
                    assert(old(self).forbidden_components == self.forbidden_components);
                    assert(old(self).forbidden_groups == self.forbidden_groups);
                    assert(old(self).accepts(m));
                }
                if old(self).accepts(m) && m.groups.has(group@) {
                    assert forall|n: Seq<char>| #[trigger]
                        self.mandatory_groups.has(n) implies m.groups.has(n) by {
                        if n != group@ {
                            assert(old(self).mandatory_groups.has(n));
                        }
                    }
                    assert(old(self).mandatory_components == self.mandatory_components);
                    assert(old(self).forbidden_components == self.forbidden_components);
                    assert(old(self).forbidden_groups == self.forbidden_groups);
                    assert(self.accepts(m));
                }
            }
        }
    }

    /// Forbids a group.
    pub fn forbid_group(&mut self, group: &str)
        requires
            old(self).wf(),
        ensures
            final(self).wf(),
            forall|m: MetaEntity| #[trigger]
                final(self).accepts(m) <==> (old(self).accepts(m) && !m.groups.has(group@)),
    {
        self.forbidden_groups.insert(group);
        proof {
            assert forall|m: MetaEntity| #[trigger]
                self.accepts(m) <==> (old(self).accepts(m) && !m.groups.has(group@)) by {
                if self.accepts(m) {
                    assert(self.forbidden_groups.has(group@));
                    assert(!m.groups.has(group@));
                    assert forall|n: Seq<char>| !(#[trigger] old(self).forbidden_groups.has(n)
                        && m.groups.has(n)) by {
                        assert(self.forbidden_groups.has(n) <==> (old(self).forbidden_groups.has(
                            n,
                        ) || n == group@));
                    }
                    assert(old(self).mandatory_components == self.mandatory_components);
                    assert(old(self).forbidden_components == self.forbidden_components);
                    assert(old(self).mandatory_groups == self.mandatory_groups);
                    assert(old(self).accepts(m));
                }
                if old(self).accepts(m) && !m.groups.has(group@) {
                    assert forall|n: Seq<char>| !(#[trigger] self.forbidden_groups.has(n)
                        && m.groups.has(n)) by {
                        if n != group@ {
                            assert(self.forbidden_groups.has(n) ==> old(self).forbidden_groups.has(
                                n,
                            ));
                        }
                    }
                    assert(old(self).mandatory_components == self.mandatory_components);
                    assert(old(self).forbidden_components == self.forbidden_components);
                    assert(old(self).mandatory_groups == self.mandatory_groups);
                    assert(self.accepts(m));
                }
            }
        }
    }
}

impl EntityFilter for StandardEntityFilter {
    open spec fn spec_pass(&self, mentity: &MetaEntity) -> bool {
        self.accepts(*mentity)
    }

    /// Filter correctness: a record passes exactly when the required
    /// components and groups are a subset of its own, and the forbidden
    /// components and groups are disjoint from its own.
    fn pass(&self, mentity: &MetaEntity) -> (r: bool)
        ensures
            r == self.spec_pass(mentity),
    {
        self.mandatory_components.is_subset(&mentity.components)
            && self.forbidden_components.is_disjoint(&mentity.components)
            && self.mandatory_groups.is_subset(&mentity.groups)
            && self.forbidden_groups.is_disjoint(&mentity.groups)
    }
}

/// The membership a replayed notification log leaves for entity `e`: the
/// last notification naming `e` decides — present after a change whose
/// record passes the filter, absent after a removal — and an entity no
/// notification names is absent.
pub open spec fn replay_member<F: EntityFilter>(
    filter: F,
    log: Seq<(Kind, MetaEntity)>,
    e: int,
) -> bool
    decreases log.len(),
{
    if log.len() == 0 {
        false
    } else if log.last().1.entity == e {
        log.last().0 == Kind::Changed && filter.spec_pass(&log.last().1)
    } else {
        replay_member(filter, log.drop_last(), e)
    }
}

/// The position of the last notification in `batch` naming entity `e`, or
/// a negative value if none does.
pub open spec fn last_notice(batch: Seq<(Kind, MetaEntity)>, e: int) -> int
    decreases batch.len(),
{
    if batch.len() == 0 {
        -1
    } else if batch.last().1.entity == e {
        batch.len() - 1
    } else {
        last_notice(batch.drop_last(), e)
    }
}

/// An incrementally maintained set of the entities matching a filter.
///
/// The view's membership is, by definition, what a replay of the
/// notifications it has received leaves: no rescan ever runs. The set the
/// view keeps mirrors that replay — its well-formedness, established at
/// creation and preserved by every notification.
pub struct EntityView<F: EntityFilter> {
    entities: BitSet,
    filter: F,
    log: Ghost<Seq<(Kind, MetaEntity)>>,
}

impl<F: EntityFilter> EntityView<F> {
    /// Well-formed: the kept entity set mirrors a replay of the received
    /// notifications.
    pub closed spec fn wf(self) -> bool {
        forall|e: int| self.entities.has(e) == replay_member(self.filter, self.log@, e)
    }

    /// The notifications the view has processed so far, oldest first.
    pub closed spec fn received_log(self) -> Seq<(Kind, MetaEntity)> {
        self.log@
    }

    /// The filter the view maintains its entities against.
    pub closed spec fn filter_of(self) -> F {
        self.filter
    }

    /// Whether entity `e` is in the view: what the replay of the received
    /// notifications leaves for it.
    pub open spec fn in_view(self, e: int) -> bool {
        replay_member(self.filter_of(), self.received_log(), e)
    }

    /// The membership the view will have once it processes a change
    /// notification carrying `mentity`.
    pub open spec fn member_after_update(self, mentity: MetaEntity, e: int) -> bool {
        if e == mentity.entity {
            self.filter_of().spec_pass(&mentity)
        } else {
            self.in_view(e)
        }
    }

    /// Creates an empty view over the given filter.
    pub fn new(filter: F) -> (r: EntityView<F>)
        ensures
            r.wf(),
            r.received_log() == Seq::<(Kind, MetaEntity)>::empty(),
            forall|e: int| !r.in_view(e),
            r.filter_of() == filter,
    {
        EntityView { entities: BitSet::new(), filter, log: Ghost(Seq::empty()) }
    }

    /// Processes a change notification: inserts the entity if its record now
    /// passes the filter, removes it if it no longer does.
    pub fn update(&mut self, mentity: &MetaEntity)
        requires
            old(self).wf(),
        ensures
            final(self).wf(),
            final(self).filter_of() == old(self).filter_of(),
            final(self).received_log() == old(self).received_log().push(
                (Kind::Changed, *mentity),
            ),
            forall|e: int| #[trigger]
                final(self).in_view(e) == old(self).member_after_update(*mentity, e),
    {
        if self.filter.pass(mentity) {
            self.entities.insert(mentity.entity);
        } else {
            self.entities.remove(mentity.entity);
        }
        proof {
            self.log@ = self.log@.push((Kind::Changed, *mentity));
            assert forall|e: int| self.entities.has(e) == replay_member(
                self.filter,
                self.log@,
                e,
            ) by {
                if e != mentity.entity {
                    assert(self.log@.drop_last() =~= old(self).log@);
                }
            }
        }
    }

    /// Processes a removal notification: the entity leaves the view.
    pub fn remove(&mut self, mentity: &MetaEntity)
        requires
            old(self).wf(),
        ensures
            final(self).wf(),
            final(self).filter_of() == old(self).filter_of(),
            final(self).received_log() == old(self).received_log().push(
                (Kind::Removed, *mentity),
            ),
            forall|e: int| #[trigger]
                final(self).in_view(e) <==> (old(self).in_view(e) && e != mentity.entity),
    {
        self.entities.remove(mentity.entity);
        proof {
            self.log@ = self.log@.push((Kind::Removed, *mentity));
            assert forall|e: int| self.entities.has(e) == replay_member(
                self.filter,
                self.log@,
                e,
            ) by {
                if e != mentity.entity {
                    assert(self.log@.drop_last() =~= old(self).log@);
                }
            }
            assert forall|e: int| #[trigger]
                self.in_view(e) <==> (old(self).in_view(e) && e != mentity.entity) by {
                if e != mentity.entity {
                    assert(self.log@.drop_last() =~= old(self).log@);
                }
            }
        }
    }

    /// Tests whether an entity is in the view.
    pub fn contains(&self, entity: usize) -> (r: bool)
        requires
            self.wf(),
        ensures
            r == self.in_view(entity as int),
    {
        self.entities.contains(entity)
    }

    /// The entities of the view, in ascending order of identifier.
    pub fn to_vec(&self) -> (r: Vec<usize>)
        requires
            self.wf(),
        ensures
            forall|e: int|
                (exists|j: int| 0 <= j < r@.len() && #[trigger] r@[j] == e) <==> self.in_view(e),
            forall|j1: int, j2: int| 0 <= j1 < j2 < r@.len() ==> r@[j1] < r@[j2],
    {
        let r = self.entities.to_indices();
        proof {
            assert forall|e: int|
                (exists|j: int| 0 <= j < r@.len() && #[trigger] r@[j] == e) <==> self.in_view(
                    e,
                ) by {
                assert(self.entities.has(e) == replay_member(
                    self.filter_of(),
                    self.received_log(),
                    e,
                ));
            }
        }
        r
    }
}

impl<F: EntityFilter> crate::event::Observer<F> for EntityView<F> {
    /// A view is a fit observer while it is well-formed.
    open spec fn inv(&self) -> bool {
        self.wf()
    }

    /// A view is configured by its filter.
    open spec fn config(&self) -> F {
        self.filter_of()
    }

    /// A view's received notifications, as the delivery contracts see them.
    open spec fn received(&self) -> Seq<(Kind, MetaEntity)> {
        self.received_log()
    }

    /// A change re-evaluates the filter for the carried record.
    fn notify_changed(&mut self, mentity: &MetaEntity) {
        self.update(mentity);
    }

    /// A removal drops the entity.
    fn notify_removed(&mut self, mentity: &MetaEntity) {
        self.remove(mentity);
    }
}

/// View incrementality: once a view has processed a change notification for
/// a record, it contains the record's entity exactly when the record passes
/// the view's filter, and no other entity's membership is touched. Replaying
/// every notification issued so far therefore leaves no stale entry and no
/// missing entry relative to a full rescan.
pub proof fn lemma_view_incrementality<F: EntityFilter>(
    view: EntityView<F>,
    mentity: MetaEntity,
    e: int,
)
    ensures
        view.member_after_update(mentity, mentity.entity as int) == view.filter_of().spec_pass(
            &mentity,
        ),
        e != mentity.entity ==> view.member_after_update(mentity, e) == view.in_view(e),
{
}

/// The position a notification for `e` has in `batch` is inside the batch,
/// and it indeed names `e`.
pub proof fn lemma_last_notice_bounds(batch: Seq<(Kind, MetaEntity)>, e: int)
    ensures
        last_notice(batch, e) < batch.len(),
        last_notice(batch, e) >= 0 ==> batch[last_notice(batch, e)].1.entity == e,
        last_notice(batch, e) >= 0 <==> exists|j: int|
            0 <= j < batch.len() && (#[trigger] batch[j]).1.entity == e,
    decreases batch.len(),
{
    if batch.len() == 0 {
    } else if batch.last().1.entity == e {
        assert(batch[batch.len() - 1].1.entity == e);
    } else {
        lemma_last_notice_bounds(batch.drop_last(), e);
        let j0 = last_notice(batch.drop_last(), e);
        if j0 >= 0 {
            assert(batch.drop_last()[j0] == batch[j0]);
        }
        if exists|j: int| 0 <= j < batch.len() && (#[trigger] batch[j]).1.entity == e {
            let j = choose|j: int| 0 <= j < batch.len() && (#[trigger] batch[j]).1.entity == e;
            assert(j < batch.len() - 1);
            assert(batch.drop_last()[j] == batch[j]);
        }
    }
}

/// One tick, seen from a view: once a delivered batch has been appended to
/// the view's received notifications — which is exactly what a delivery
/// promises — the view holds an entity the batch names iff the batch's last
/// notification for it was a change whose record passes the filter, and an
/// entity the batch never names keeps its earlier membership.
pub proof fn lemma_view_after_tick<F: EntityFilter>(
    pre_view: EntityView<F>,
    post_view: EntityView<F>,
    batch: Seq<(Kind, MetaEntity)>,
    e: int,
)
    requires
        post_view.filter_of() == pre_view.filter_of(),
        post_view.received_log() == pre_view.received_log() + batch,
    ensures
        last_notice(batch, e) >= 0 ==> (post_view.in_view(e) <==> (batch[last_notice(batch, e)].0
            == Kind::Changed && pre_view.filter_of().spec_pass(&batch[last_notice(batch, e)].1))),
        last_notice(batch, e) < 0 ==> (post_view.in_view(e) <==> pre_view.in_view(e)),
{
    lemma_last_notice_bounds(batch, e);
    lemma_view_after_batch(pre_view.filter_of(), pre_view.received_log(), batch, e);
}

/// What one delivered batch does to a view: the batch's last notification
/// naming an entity decides its membership — in, if it was a change whose
/// record passes the filter; out, if it was the removal — and an entity the
/// batch never names keeps the membership the earlier log left it.
pub proof fn lemma_view_after_batch<F: EntityFilter>(
    filter: F,
    log: Seq<(Kind, MetaEntity)>,
    batch: Seq<(Kind, MetaEntity)>,
    e: int,
)
    ensures
        last_notice(batch, e) >= 0 ==> replay_member(filter, log + batch, e) == {
            let j = last_notice(batch, e);
            batch[j].0 == Kind::Changed && filter.spec_pass(&batch[j].1)
        },
        last_notice(batch, e) < 0 ==> replay_member(filter, log + batch, e) == replay_member(
            filter,
            log,
            e,
        ),
    decreases batch.len(),
{
    if batch.len() == 0 {
        assert(log + batch =~= log);
    } else {
        assert((log + batch).last() == batch.last());
        if batch.last().1.entity == e {
            assert(last_notice(batch, e) == batch.len() - 1);
        } else {
            assert((log + batch).drop_last() =~= log + batch.drop_last());
            lemma_view_after_batch(filter, log, batch.drop_last(), e);
            lemma_last_notice_bounds(batch.drop_last(), e);
            let j = last_notice(batch.drop_last(), e);
            if j >= 0 {
                assert(batch.drop_last()[j] == batch[j]);
            }
        }
    }
}

} // verus!
