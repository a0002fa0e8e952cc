//! The pool that issues and recycles entity records.

use vstd::prelude::*;
use crate::entity::MetaEntity;

verus! {

/// The stock of records after one more record is released into it.
pub open spec fn released_state(records: Seq<MetaEntity>, released: MetaEntity) -> Seq<
    MetaEntity,
> {
    records.push(released)
}

/// The stocked record that the next acquisition will hand out.
pub open spec fn recycled_record(records: Seq<MetaEntity>) -> MetaEntity
    recommends
        records.len() > 0,
{
    records.last()
}

/// A pool from which entity records are drawn.
///
/// A record put back into the pool is recycled: the next draw returns it,
/// reset but with its identifier preserved. A fresh identifier is issued only
/// when no recycled record is available.
pub struct Pool {
    available: Vec<MetaEntity>,
    next_id: usize,
}

impl Pool {
    /// The stock of released records, oldest first.
    pub closed spec fn records(self) -> Seq<MetaEntity> {
        self.available@
    }

    /// The identifier the next fresh record will get.
    pub closed spec fn fresh_id(self) -> int {
        self.next_id as int
    }

    /// Whether `id` is the identifier of some stocked record.
    pub open spec fn stocks_id(self, id: int) -> bool {
        exists|k: int| 0 <= k < self.records().len() && #[trigger] self.records()[k].entity == id
    }

    /// Well-formed: stocked identifiers were issued before and are distinct.
    pub open spec fn wf(self) -> bool {
        &&& forall|k: int|
            0 <= k < self.records().len() ==> #[trigger] self.records()[k].entity
                < self.fresh_id()
        &&& forall|k1: int, k2: int|
            #![trigger self.records()[k1].entity, self.records()[k2].entity]
            0 <= k1 < k2 < self.records().len() ==> self.records()[k1].entity
                != self.records()[k2].entity
    }

    /// Creates an empty pool; the first record drawn gets identifier zero.
    pub fn new() -> (r: Pool)
        ensures
            r.wf(),
            r.records() == Seq::<MetaEntity>::empty(),
            r.fresh_id() == 0,
    {
        Pool { available: Vec::new(), next_id: 0 }
    }

    /// Retrieves a reset record: the most recently released one if any is
    /// stocked, else a fresh one with the next unused identifier.
    ///
    /// Identifiers do not run out in practice; the pool requires headroom so
    /// that a fresh issue cannot overflow.
    pub fn get(&mut self) -> (r: MetaEntity)
        requires
            old(self).wf(),
            old(self).fresh_id() < usize::MAX,
        ensures
            final(self).wf(),
            r.is_reset(),
            r.wf(),
            old(self).records().len() > 0 ==> {
                &&& r.entity == recycled_record(old(self).records()).entity
                &&& final(self).records() == old(self).records().drop_last()
                &&& final(self).fresh_id() == old(self).fresh_id()
            },
            old(self).records().len() == 0 ==> {
                &&& r.entity == old(self).fresh_id()
                &&& final(self).records() == old(self).records()
                &&& final(self).fresh_id() == old(self).fresh_id() + 1
            },
            r.entity < final(self).fresh_id(),
            !final(self).stocks_id(r.entity as int),
            forall|id: int| #[trigger]
                final(self).stocks_id(id) <==> old(self).stocks_id(id) && id != r.entity,
    {
        let recycled = self.available.pop();
        let bare = match recycled {
            Some(m) => m,
            None => {
                let id = self.next_id;
                self.next_id = self.next_id + 1;
                MetaEntity::new(id)
            },
        };
        proof {
            if old(self).records().len() > 0 {
                assert forall|id: int| #[trigger]
                    self.stocks_id(id) <==> old(self).stocks_id(id) && id != bare.entity by {
                    if self.stocks_id(id) {
                        let k = choose|k: int|
                            0 <= k < self.records().len() && #[trigger] self.records()[k].entity
                                == id;
                        assert(old(self).records()[k].entity == id);
                    }
                    if old(self).stocks_id(id) && id != bare.entity {
                        let k = choose|k: int|
                            0 <= k < old(self).records().len()
                                && #[trigger] old(self).records()[k].entity == id;
                        assert(k < old(self).records().len() - 1);
                        assert(self.records()[k].entity == id);
                    }
                }
            } else {
                assert forall|id: int| #[trigger]
                    self.stocks_id(id) <==> old(self).stocks_id(id) && id != bare.entity by {}
            }
        }
        bare.reset()
    }

    /// Releases a record for future reuse.
    ///
    /// The caller must have detached the record from every store and index
    /// beforehand; the manager, not the pool, enforces that.
    pub fn put(&mut self, entity: MetaEntity)
        requires
            old(self).wf(),
            entity.entity < old(self).fresh_id(),
            !old(self).stocks_id(entity.entity as int),
        ensures
            final(self).wf(),
            final(self).records() == released_state(old(self).records(), entity),
            final(self).fresh_id() == old(self).fresh_id(),
            forall|id: int| #[trigger]
                final(self).stocks_id(id) <==> old(self).stocks_id(id) || id == entity.entity,
    {
        self.available.push(entity);
        proof {
            assert forall|id: int| #[trigger]
                self.stocks_id(id) <==> old(self).stocks_id(id) || id == entity.entity by {
                if self.stocks_id(id) {
                    let k = choose|k: int|
                        0 <= k < self.records().len() && #[trigger] self.records()[k].entity == id;
                    if k < old(self).records().len() {
                        assert(old(self).records()[k].entity == id);
                    }
                }
                if old(self).stocks_id(id) {
                    let k = choose|k: int|
                        0 <= k < old(self).records().len()
                            && #[trigger] old(self).records()[k].entity == id;
                    assert(self.records()[k].entity == id);
                }
                if id == entity.entity {
                    assert(self.records()[self.records().len() - 1].entity == id);
                }
            }
            assert forall|k1: int, k2: int|
                #![trigger self.records()[k1].entity, self.records()[k2].entity]
                0 <= k1 < k2 < self.records().len() implies self.records()[k1].entity
                != self.records()[k2].entity by {
                if k2 == self.records().len() - 1 {
                    assert(old(self).records()[k1].entity == self.records()[k1].entity);
                    assert(!old(self).stocks_id(entity.entity as int));
                }
            }
        }
    }
}

/// Pool recycling: releasing a record and then acquiring returns a record
/// with the released identifier. That the acquired record's tag, groups and
/// component bits are empty is part of the acquisition's own contract, which
/// resets every record it hands out.
pub proof fn lemma_pool_recycling(records: Seq<MetaEntity>, released: MetaEntity)
    ensures
        released_state(records, released).len() > 0,
        recycled_record(released_state(records, released)).entity == released.entity,
{
}

} // verus!
