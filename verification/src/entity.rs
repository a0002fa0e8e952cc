//! Entities and their per-entity metadata record.

use vstd::prelude::*;
use crate::bitset::BitSet;
use crate::strset::NameSet;

verus! {

/// A plain entity identifier.
pub type Entity = usize;

/// The metadata record of one entity: its identifier, its awake flag, its
/// optional tag, its group memberships and its component membership bits.
///
/// The component bit for a type index is set exactly when the store for that
/// type holds a value for this entity; the manager maintains that invariant.
pub struct MetaEntity {
    pub entity: Entity,
    pub is_awake: bool,
    pub tag: Option<String>,
    pub groups: NameSet,
    pub components: BitSet,
}

impl MetaEntity {
    /// The tag as an abstract name, if any.
    pub open spec fn tag_name(self) -> Option<Seq<char>> {
        match self.tag {
            Some(s) => Some(s@),
            None => None,
        }
    }

    /// All mutable features are cleared: awake, no tag, no group, no component.
    pub open spec fn is_reset(self) -> bool {
        &&& self.is_awake
        &&& self.tag is None
        &&& forall|n: Seq<char>| !self.groups.has(n)
        &&& forall|i: int| !self.components.has(i)
    }

    /// Well-formed: the group set holds no duplicate.
    pub open spec fn wf(self) -> bool {
        self.groups.wf()
    }

    /// Creates a bare record for `entity`.
    pub fn new(entity: Entity) -> (r: MetaEntity)
        ensures
            r.entity == entity,
            r.is_reset(),
            r.wf(),
            r.groups.names() == Seq::<Seq<char>>::empty(),
    {
        MetaEntity {
            entity,
            is_awake: true,
            tag: None,
            groups: NameSet::new(),
            components: BitSet::new(),
        }
    }

    /// Clears the record's mutable features, keeping its identifier.
    pub fn reset(self) -> (r: MetaEntity)
        ensures
            r.entity == self.entity,
            r.is_reset(),
            r.wf(),
    {
        let mut m = self;
        m.is_awake = true;
        m.components.clear();
        m.tag = None;
        m.groups.clear();
        m
    }
}

} // verus!
