use vstd::prelude::*;

use crate::archetype::ArchetypeId;
use crate::bitset::{
    ArchetypeBitSet,
    BITSET_CAPACITY,
    bitset_contains,
    bitset_contents,
    bitset_indices,
    bitset_insert,
    bitset_new,
};

verus! {

/// If set -> relation, otherwise -> normal component.
pub const RELATION: u32 = 0x80000000;

/// If set -> relation target, otherwise -> relation origin.
pub const IS_TARGET: u32 = 0x40000000;

/// Marks exclusive relationships.
/// A relation is exclusive if an origin can only have a single target.
///
/// For example if the relation `ChildOf(child, parent)` is exclusive
/// then a child can only have a single parent.
/// A parent can still have multiple children though.
pub const EXCLUSIVE: u32 = 0x20000000;

/// Marks symmetric relationships.
/// A relation is symmetric if `Rel(a,b)` implies `Rel(b,a)`.
pub const SYMMETRIC: u32 = 0x10000000;

/// Mark a relationship with cascading destruction.
/// When an origin in a cascading destruction relation gets destroyed,
/// then all its targets in that relation also get destroyed.
pub const CASCADING_DESTRUCT: u32 = 0x8000000;

/// Marks transitive relationships.
/// A relation is transitive if `Rel(a,b)` and `Rel(b,c)` implies `Rel(a,c)`.
pub const TRANSITIVE: u32 = 0x4000000;

/// 24 bit ought to be enough component ids, the rest is reserved for flags.
pub const ID_MASK: u32 = 0xffffff;

/// Identifies a component or relation type: 24 bits of index and 8 bits of flags.
#[derive(Clone, Copy, Debug, PartialEq, Eq, Structural, PartialOrd, Ord, Hash)]
pub struct ComponentId(u32);

impl ComponentId {
    /// The raw bits, flags included.
    pub closed spec fn bits(self) -> u32 {
        self.0
    }

    /// Builds the id from raw bits.
    pub closed spec fn from_bits(b: u32) -> ComponentId {
        ComponentId(b)
    }

    pub proof fn lemma_bits(self)
        ensures
            ComponentId::from_bits(self.bits()) == self,
            forall|b: u32| #[trigger] ComponentId::from_bits(b).bits() == b,
    {
    }

    /// The index part.
    pub open spec fn spec_id(self) -> u32 {
        self.bits() & ID_MASK
    }

    pub open spec fn has_flag(self, flag: u32) -> bool {
        self.bits() & flag != 0
    }

    pub open spec fn spec_is_relation(self) -> bool {
        self.has_flag(RELATION)
    }

    pub open spec fn spec_is_target(self) -> bool {
        self.spec_is_relation() && self.has_flag(IS_TARGET)
    }

    /// The relation carries the symmetric flag, on either side.
    pub open spec fn spec_has_symmetric_flag(self) -> bool {
        self.spec_is_relation() && self.has_flag(SYMMETRIC)
    }

    /// A symmetric relation, as its origin side reports it.
    pub open spec fn spec_is_symmetric(self) -> bool {
        self.spec_has_symmetric_flag() && !self.spec_is_target()
    }

    pub open spec fn spec_is_exclusive(self) -> bool {
        self.spec_is_relation() && self.has_flag(EXCLUSIVE) && !self.spec_is_target()
    }

    pub open spec fn spec_is_cascading(self) -> bool {
        self.spec_is_relation() && self.has_flag(CASCADING_DESTRUCT) && !self.spec_is_target()
    }

    pub open spec fn spec_is_transitive(self) -> bool {
        self.spec_is_relation() && self.has_flag(TRANSITIVE)
    }

    /// What `flip_target` returns.
    pub open spec fn spec_flip_target(self) -> ComponentId {
        if self.spec_has_symmetric_flag() {
            self
        } else {
            ComponentId::from_bits(self.bits() ^ IS_TARGET)
        }
    }

    /// What flipping does to the flags of a relation id.
    pub proof fn lemma_flip_target(self)
        requires
            self.spec_is_relation(),
        ensures
            self.spec_flip_target().spec_id() == self.spec_id(),
            self.spec_flip_target().spec_is_relation(),
            self.spec_flip_target().spec_is_symmetric() == self.spec_is_symmetric(),
            self.spec_flip_target().spec_is_transitive() == self.spec_is_transitive(),
            self.spec_flip_target().spec_has_symmetric_flag() == self.spec_has_symmetric_flag(),
            !self.spec_has_symmetric_flag() ==> self.spec_flip_target().spec_is_target()
                == !self.spec_is_target(),
            !self.spec_has_symmetric_flag() ==> self.spec_flip_target() != self,
            self.spec_flip_target().spec_flip_target() == self,
    {
        let b = self.0;
        assert(b & 0x80000000u32 != 0 ==> {
            let f = b ^ 0x40000000u32;
            &&& f & 0xffffffu32 == b & 0xffffffu32
            &&& f & 0x80000000u32 != 0
            &&& (f & 0x10000000u32 != 0) == (b & 0x10000000u32 != 0)
            &&& (f & 0x4000000u32 != 0) == (b & 0x4000000u32 != 0)
            &&& (f & 0x40000000u32 != 0) == !(b & 0x40000000u32 != 0)
            &&& f ^ 0x40000000u32 == b
            &&& f != b
        }) by (bit_vector);
    }

    /// The raw bits, flags included; the order of component ids is the order of these bits.
    pub fn raw(&self) -> (r: u32)
        ensures
            r == self.bits(),
    {
        self.0
    }

    /// Creates the id of a normal component with index `id`.
    pub fn new(id: u32) -> (r: Self)
        requires
            id <= ID_MASK,
        ensures
            r.bits() == id,
            r.spec_id() == id,
            !r.spec_is_relation(),
    {
        proof {
            assert(id <= 0xffffffu32 ==> id & 0xffffffu32 == id && id & 0x80000000u32 == 0)
                by (bit_vector);
        }
        Self(id)
    }

    /// Adds the flags; only bits outside the index part may be set.
    #[must_use]
    pub fn set_flags(self, flags: u32) -> (r: Self)
        requires
            flags & ID_MASK == 0,
        ensures
            r.bits() == self.bits() | flags,
            r.spec_id() == self.spec_id(),
    {
        let b = self.0;
        proof {
            assert(flags & 0xffffffu32 == 0 ==> (b | flags) & 0xffffffu32 == b & 0xffffffu32)
                by (bit_vector);
        }
        Self(self.0 | flags)
    }

    #[must_use]
    pub fn set_relation(self) -> (r: Self)
        ensures
            r.bits() == self.bits() | RELATION,
            r.spec_is_relation(),
            r.spec_id() == self.spec_id(),
            r.has_flag(IS_TARGET) == self.has_flag(IS_TARGET),
    {
        let b = self.0;
        proof {
            assert((b | 0x80000000u32) & 0x80000000u32 != 0 && (b | 0x80000000u32) & 0xffffffu32
                == b & 0xffffffu32 && ((b | 0x80000000u32) & 0x40000000u32 != 0) == (b
                & 0x40000000u32 != 0)) by (bit_vector);
        }
        Self(self.0 | RELATION)
    }

    pub fn is_relation(&self) -> (r: bool)
        ensures
            r == self.spec_is_relation(),
    {
        let b = self.0;
        proof {
            assert((b & 0x80000000u32 > 0) == (b & 0x80000000u32 != 0)) by (bit_vector);
        }
        (self.0 & RELATION) > 0
    }

    /// Switches between relation origin and target of a relation; symmetric relations have
    /// no sides.
    #[must_use]
    pub fn flip_target(self) -> (r: Self)
        requires
            self.spec_is_relation(),
        ensures
            r == self.spec_flip_target(),
            r.spec_id() == self.spec_id(),
            r.spec_is_relation(),
            r.spec_is_symmetric() == self.spec_is_symmetric(),
            r.spec_is_transitive() == self.spec_is_transitive(),
            r.spec_has_symmetric_flag() == self.spec_has_symmetric_flag(),
            !self.spec_has_symmetric_flag() ==> r.spec_is_target() == !self.spec_is_target(),
            r.spec_flip_target() == self,
    {
        let b = self.0;
        proof {
            assert(b & 0x80000000u32 != 0 ==> {
                let f = b ^ 0x40000000u32;
                &&& f & 0xffffffu32 == b & 0xffffffu32
                &&& f & 0x80000000u32 != 0
                &&& (f & 0x10000000u32 != 0) == (b & 0x10000000u32 != 0)
                &&& (f & 0x4000000u32 != 0) == (b & 0x4000000u32 != 0)
                &&& (f & 0x40000000u32 != 0) == !(b & 0x40000000u32 != 0)
                &&& f ^ 0x40000000u32 == b
            }) by (bit_vector);
        }
        if self.has_symmetric_flag() {
            self
        } else {
            Self(self.0 ^ IS_TARGET)
        }
    }

    pub fn is_target(&self) -> (r: bool)
        ensures
            r == self.spec_is_target(),
    {
        let b = self.0;
        proof {
            assert((b & 0x40000000u32 > 0) == (b & 0x40000000u32 != 0)) by (bit_vector);
        }
        self.is_relation() && (self.0 & IS_TARGET) > 0
    }

    /// Toggles the exclusive flag of a relation.
    #[must_use]
    pub fn set_exclusive(self) -> (r: Self)
        requires
            self.spec_is_relation(),
        ensures
            r.bits() == self.bits() ^ EXCLUSIVE,
            r.spec_id() == self.spec_id(),
            r.spec_is_relation(),
    {
        let b = self.0;
        proof {
            assert(b & 0x80000000u32 != 0 ==> (b ^ 0x20000000u32) & 0xffffffu32 == b
                & 0xffffffu32 && (b ^ 0x20000000u32) & 0x80000000u32 != 0) by (bit_vector);
        }
        Self(self.0 ^ EXCLUSIVE)
    }

    /// Only true for the relation origin.
    pub fn is_exclusive(&self) -> (r: bool)
        ensures
            r == self.spec_is_exclusive(),
    {
        let b = self.0;
        proof {
            assert((b & 0x20000000u32 > 0) == (b & 0x20000000u32 != 0)) by (bit_vector);
        }
        self.is_relation() && (self.0 & EXCLUSIVE) > 0 && !self.is_target()
    }

    /// Toggles the cascading flag of a relation.
    #[must_use]
    pub fn set_cascading(self) -> (r: Self)
        requires
            self.spec_is_relation(),
        ensures
            r.bits() == self.bits() ^ CASCADING_DESTRUCT,
            r.spec_id() == self.spec_id(),
            r.spec_is_relation(),
    {
        let b = self.0;
        proof {
            assert(b & 0x80000000u32 != 0 ==> (b ^ 0x8000000u32) & 0xffffffu32 == b
                & 0xffffffu32 && (b ^ 0x8000000u32) & 0x80000000u32 != 0) by (bit_vector);
        }
        Self(self.0 ^ CASCADING_DESTRUCT)
    }

    /// Only true for the relation origin.
    pub fn is_cascading(&self) -> (r: bool)
        ensures
            r == self.spec_is_cascading(),
    {
        let b = self.0;
        proof {
            assert((b & 0x8000000u32 > 0) == (b & 0x8000000u32 != 0)) by (bit_vector);
        }
        self.is_relation() && (self.0 & CASCADING_DESTRUCT) > 0 && !self.is_target()
    }

    /// Toggles the symmetric flag of a relation.
    #[must_use]
    pub fn set_symmetric(self) -> (r: Self)
        requires
            self.spec_is_relation(),
        ensures
            r.bits() == self.bits() ^ SYMMETRIC,
            r.spec_id() == self.spec_id(),
            r.spec_is_relation(),
    {
        let b = self.0;
        proof {
            assert(b & 0x80000000u32 != 0 ==> (b ^ 0x10000000u32) & 0xffffffu32 == b
                & 0xffffffu32 && (b ^ 0x10000000u32) & 0x80000000u32 != 0) by (bit_vector);
        }
        Self(self.0 ^ SYMMETRIC)
    }

    /// The relation carries the symmetric flag, on either side.
    fn has_symmetric_flag(&self) -> (r: bool)
        ensures
            r == self.spec_has_symmetric_flag(),
    {
        let b = self.0;
        proof {
            assert((b & 0x10000000u32 > 0) == (b & 0x10000000u32 != 0)) by (bit_vector);
        }
        self.is_relation() && (self.0 & SYMMETRIC) > 0
    }

    /// Whether this is a symmetric relation; only its origin side reports it.
    pub fn is_symmetric(&self) -> (r: bool)
        ensures
            r == self.spec_is_symmetric(),
    {
        self.has_symmetric_flag() && !self.is_target()
    }

    /// Toggles the transitive flag of a relation.
    #[must_use]
    pub fn set_transitive(self) -> (r: Self)
        requires
            self.spec_is_relation(),
        ensures
            r.bits() == self.bits() ^ TRANSITIVE,
            r.spec_id() == self.spec_id(),
            r.spec_is_relation(),
    {
        let b = self.0;
        proof {
            assert(b & 0x80000000u32 != 0 ==> (b ^ 0x4000000u32) & 0xffffffu32 == b
                & 0xffffffu32 && (b ^ 0x4000000u32) & 0x80000000u32 != 0) by (bit_vector);
        }
        Self(self.0 ^ TRANSITIVE)
    }

    pub fn is_transitive(&self) -> (r: bool)
        ensures
            r == self.spec_is_transitive(),
    {
        let b = self.0;
        proof {
            assert((b & 0x4000000u32 > 0) == (b & 0x4000000u32 != 0)) by (bit_vector);
        }
        self.is_relation() && (self.0 & TRANSITIVE) > 0
    }

    /// Creates the id of a normal component from an index that fits the index part.
    pub fn from_usize(id: usize) -> (r: Self)
        requires
            id <= ID_MASK,
        ensures
            r.bits() == id,
            r.spec_id() == id,
            !r.spec_is_relation(),
    {
        Self::new(id as u32)
    }

    pub fn as_index(&self) -> (r: usize)
        ensures
            r == self.spec_id(),
    {
        self.id() as usize
    }

    /// The index part, without flags.
    pub fn id(&self) -> (r: u32)
        ensures
            r == self.spec_id(),
            r <= ID_MASK,
    {
        let b = self.0;
        proof {
            assert(b & 0xffffffu32 <= 0xffffffu32) by (bit_vector);
        }
        self.0 & ID_MASK
    }
}

/// Error of re-registering a component type.
pub enum ReregisterError {
    /// The new type has a different layout than the old type.
    DifferingLayout,
}

/// Metadata about a component type registered in froql.
pub struct Component {
    /// Id of this component
    pub id: ComponentId,
    /// size of the stored values (0 for types without data)
    pub layout_size: usize,
    /// alignment of the stored values
    pub layout_align: usize,
    pub name: String,
    /// archetypes that have this component (as relation origin, for relations)
    pub archetypes: ArchetypeBitSet,
    /// archetypes that have this relation as target
    pub target_archetypes: ArchetypeBitSet,
}

impl Component {
    /// Archetypes that have the component (relation origin side).
    pub closed spec fn origin_set(&self) -> Set<usize> {
        bitset_contents(self.archetypes)
    }

    /// Archetypes that have the relation target side.
    pub closed spec fn target_set(&self) -> Set<usize> {
        bitset_contents(self.target_archetypes)
    }

    /// The set that tracks `cid`: the target set for a relation target, the origin set otherwise.
    pub open spec fn set_for(&self, cid: ComponentId) -> Set<usize> {
        if cid.spec_is_target() {
            self.target_set()
        } else {
            self.origin_set()
        }
    }

    pub fn new(id: ComponentId, name: String, layout_size: usize, layout_align: usize) -> (r: Self)
        ensures
            r.id == id,
            r.name == name,
            r.layout_size == layout_size,
            r.layout_align == layout_align,
            r.origin_set() == Set::<usize>::empty(),
            r.target_set() == Set::<usize>::empty(),
    {
        Component {
            id,
            name,
            layout_size,
            layout_align,
            archetypes: bitset_new(),
            target_archetypes: bitset_new(),
        }
    }

    /// Used for hot reloading: accepts the new type if its layout did not change.
    pub fn update_layout(&mut self, layout_size: usize, layout_align: usize) -> (r: Result<
        (),
        ReregisterError,
    >)
        ensures
            r is Ok == (layout_size == old(self).layout_size && layout_align == old(self).layout_align),
            *final(self) == *old(self),
    {
        if layout_size == self.layout_size && layout_align == self.layout_align {
            Ok(())
        } else {
            Err(ReregisterError::DifferingLayout)
        }
    }

    /// Records that archetype `aid` has component `cid` (one of the two sides of this component).
    pub fn insert_archetype(&mut self, aid: ArchetypeId, cid: ComponentId)
        requires
            aid.0 < BITSET_CAPACITY,
        ensures
            final(self).id == old(self).id,
            final(self).name == old(self).name,
            final(self).layout_size == old(self).layout_size,
            final(self).layout_align == old(self).layout_align,
            cid.spec_is_target() ==> final(self).target_set() == old(self).target_set().insert(
                aid.0 as usize,
            ) && final(self).origin_set() == old(self).origin_set(),
            !cid.spec_is_target() ==> final(self).origin_set() == old(self).origin_set().insert(
                aid.0 as usize,
            ) && final(self).target_set() == old(self).target_set(),
    {
        if cid.is_target() {
            bitset_insert(&mut self.target_archetypes, aid.0 as usize);
        } else {
            bitset_insert(&mut self.archetypes, aid.0 as usize);
        }
    }

    /// Whether archetype `aid` has component `cid` (one of the two sides of this component).
    pub fn has_archetype(&self, aid: ArchetypeId, cid: ComponentId) -> (r: bool)
        requires
            aid.0 < BITSET_CAPACITY,
        ensures
            r == self.set_for(cid).contains(aid.0 as usize),
    {
        if cid.is_target() {
            bitset_contains(&self.target_archetypes, aid.0 as usize)
        } else {
            bitset_contains(&self.archetypes, aid.0 as usize)
        }
    }

    /// The archetypes that have the component (relation origin side), ascending.
    pub fn get_archetypes(&self) -> (r: Vec<ArchetypeId>)
        ensures
            forall|i: int, j: int| 0 <= i < j < r@.len() ==> r@[i].0 < r@[j].0,
            forall|i: int| 0 <= i < r@.len() ==> self.origin_set().contains(#[trigger] r@[i].0 as usize),
            forall|a: usize| #[trigger] self.origin_set().contains(a) ==> exists|i: int|
                0 <= i < r@.len() && r@[i].0 == a,
    {
        let indices = bitset_indices(&self.archetypes);
        let mut r: Vec<ArchetypeId> = Vec::new();
        let mut i: usize = 0;
        while i < indices.len()
            invariant
                0 <= i <= indices@.len(),
                r@.len() == i,
                forall|k: int| 0 <= k < i ==> r@[k].0 == indices@[k],
                forall|k: int| 0 <= k < indices@.len() ==> indices@[k] < BITSET_CAPACITY,
            decreases indices@.len() - i,
        {
            r.push(ArchetypeId(indices[i] as u32));
            i += 1;
        }
        proof {
            assert forall|i: int, j: int| 0 <= i < j < r@.len() implies r@[i].0 < r@[j].0 by {
                assert(r@[i].0 == indices@[i]);
                assert(r@[j].0 == indices@[j]);
            }
            assert forall|i: int| 0 <= i < r@.len() implies self.origin_set().contains(
                #[trigger] r@[i].0 as usize,
            ) by {
                assert(r@[i].0 == indices@[i]);
                assert(indices@.contains(indices@[i]));
            }
            assert forall|a: usize| #[trigger] self.origin_set().contains(a) implies exists|i: int|
                0 <= i < r@.len() && r@[i].0 == a by {
                assert(indices@.contains(a));
                let k = choose|k: int| 0 <= k < indices@.len() && indices@[k] == a;
                assert(r@[k].0 == a);
            }
        }
        r
    }

    /// The bitset that tracks `cid`.
    pub fn get_archetype_bitset(&self, cid: ComponentId) -> (r: &ArchetypeBitSet)
        ensures
            bitset_contents(*r) == self.set_for(cid),
    {
        if cid.is_target() {
            &self.target_archetypes
        } else {
            &self.archetypes
        }
    }
}

} // verus!
