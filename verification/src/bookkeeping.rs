use vstd::prelude::*;
use vstd::set_lib::{lemma_int_range, lemma_len_subset, set_int_range};

use crate::archetype::{
    Archetype,
    ArchetypeId,
    ArchetypeRow,
    ComponentValue,
    differ_by_at_most_one,
    entry_fits,
    lemma_sorted_eq,
    lemma_sorted_index_of,
    lemma_sorted_remove,
    sorted_ids,
};
use crate::util::get_mut_2;
use crate::bitset::{
    ArchetypeBitSet,
    BITSET_CAPACITY,
    REDUCE_MAX_SETS,
    bitset_contents,
    bitsets_difference,
    bitsets_intersection,
    bitsets_union,
};
use crate::component::{Component, ComponentId, ID_MASK};
use crate::entity_store::{Entity, EntityId, EntityStore, ForceAliveResult, SENTINEL};
use crate::layout_vec::{LayoutVec, swap_removed};
use crate::relation_vec::RelationVec;

verus! {

/// The archetype of entities without components.
pub const EMPTY_ARCHETYPE_ID: u32 = 0;

/// Everything about archetype and component management:
/// which components exist, which archetypes exist, where each entity lives.
///
/// `V` is the type of the stored component values.
pub struct Bookkeeping<V> {
    /// Indexed by the index part of a ComponentId
    pub components: Vec<Component>,
    /// Indexed by ArchetypeId
    pub archetypes: Vec<Archetype<V>>,
    /// Indexed by EntityId
    pub entities: EntityStore,
    /// Indexed by ArchetypeId: the exact (sorted) component set of each archetype,
    /// including the components without size that have no column
    pub exact_archetype: Vec<Vec<ComponentId>>,
}

/// Element-wise equality of two component id lists.
fn ids_equal(a: &Vec<ComponentId>, b: &Vec<ComponentId>) -> (r: bool)
    ensures
        r == (a@ == b@),
{
    if a.len() != b.len() {
        return false;
    }
    let mut i: usize = 0;
    while i < a.len()
        invariant
            a@.len() == b@.len(),
            0 <= i <= a@.len(),
            forall|j: int| 0 <= j < i ==> a@[j] == b@[j],
        decreases a@.len() - i,
    {
        if a[i] != b[i] {
            return false;
        }
        i += 1;
    }
    proof {
        assert(a@ =~= b@);
    }
    true
}

/// A copy of the id list.
fn copy_ids(v: &Vec<ComponentId>) -> (r: Vec<ComponentId>)
    ensures
        r@ == v@,
{
    let mut r: Vec<ComponentId> = Vec::new();
    let mut i: usize = 0;
    while i < v.len()
        invariant
            0 <= i <= v@.len(),
            r@ == v@.subrange(0, i as int),
        decreases v@.len() - i,
    {
        r.push(v[i]);
        i += 1;
        proof {
            assert(r@ =~= v@.subrange(0, i as int));
        }
    }
    proof {
        assert(r@ =~= v@);
    }
    r
}

/// Inserts `cid` into the sorted list at its place.
fn insert_sorted(v: &mut Vec<ComponentId>, cid: ComponentId)
    requires
        sorted_ids(old(v)@),
        !old(v)@.contains(cid),
    ensures
        sorted_ids(final(v)@),
        forall|c: ComponentId| #[trigger] final(v)@.contains(c) <==> (old(v)@.contains(c) || c == cid),
{
    let mut p: usize = 0;
    while p < v.len() && v[p].raw() < cid.raw()
        invariant
            0 <= p <= v@.len(),
            forall|l: int| 0 <= l < p ==> (#[trigger] v@[l]).bits() < cid.bits(),
        decreases v@.len() - p,
    {
        p += 1;
    }
    let ghost pre = v@;
    proof {
        if p < pre.len() {
            if pre[p as int].bits() == cid.bits() {
                pre[p as int].lemma_bits();
                cid.lemma_bits();
                assert(pre.contains(pre[p as int]));
            }
        }
    }
    v.insert(p, cid);
    proof {
        assert(v@ == pre.insert(p as int, cid));
        assert forall|i: int, j: int| 0 <= i < j < v@.len() implies (#[trigger] v@[i]).bits() < (
        #[trigger] v@[j]).bits() by {
            if j < p {
                assert(v@[i] == pre[i] && v@[j] == pre[j]);
            } else if j == p {
                assert(v@[i] == pre[i]);
            } else if i > p {
                assert(v@[i] == pre[i - 1] && v@[j] == pre[j - 1]);
            } else if i == p {
                assert(v@[j] == pre[j - 1]);
                assert(pre[p as int].bits() <= pre[j - 1].bits());
            } else {
                assert(v@[i] == pre[i] && v@[j] == pre[j - 1]);
            }
        }
        assert forall|c: ComponentId| #[trigger] v@.contains(c) <==> (pre.contains(c) || c == cid) by {
            if v@.contains(c) {
                let i = choose|i: int| 0 <= i < v@.len() && v@[i] == c;
                if i < p {
                    assert(pre[i] == c);
                } else if i > p {
                    assert(pre[i - 1] == c);
                }
            }
            if pre.contains(c) {
                let i = choose|i: int| 0 <= i < pre.len() && pre[i] == c;
                if i < p {
                    assert(v@[i] == c);
                } else {
                    assert(v@[i + 1] == c);
                }
            }
            if c == cid {
                assert(v@[p as int] == c);
            }
        }
    }
}

/// Removes `cid` from the sorted list, if it is there.
fn remove_id(v: &mut Vec<ComponentId>, cid: ComponentId)
    requires
        sorted_ids(old(v)@),
    ensures
        sorted_ids(final(v)@),
        forall|c: ComponentId| #[trigger] final(v)@.contains(c) <==> (old(v)@.contains(c) && c != cid),
{
    let mut p: usize = 0;
    while p < v.len()
        invariant
            v@ == old(v)@,
            sorted_ids(old(v)@),
            0 <= p <= v@.len(),
            forall|l: int| 0 <= l < p ==> v@[l] != cid,
        decreases v@.len() - p,
    {
        if v[p] == cid {
            let ghost pre = v@;
            v.remove(p);
            proof {
                assert(v@ == pre.remove(p as int));
                assert forall|i: int, j: int| 0 <= i < j < v@.len() implies (#[trigger] v@[i]).bits()
                    < (#[trigger] v@[j]).bits() by {
                    let i2 = if i < p {
                        i
                    } else {
                        i + 1
                    };
                    let j2 = if j < p {
                        j
                    } else {
                        j + 1
                    };
                    assert(v@[i] == pre[i2] && v@[j] == pre[j2]);
                }
                assert forall|c: ComponentId| #[trigger] v@.contains(c) <==> (pre.contains(c) && c != cid) by {
                    if v@.contains(c) {
                        let i = choose|i: int| 0 <= i < v@.len() && v@[i] == c;
                        let i2 = if i < p {
                            i
                        } else {
                            i + 1
                        };
                        assert(pre[i2] == c);
                        if c == cid {
                            lemma_sorted_index_of(pre, i2);
                            lemma_sorted_index_of(pre, p as int);
                        }
                    }
                    if pre.contains(c) && c != cid {
                        let i = choose|i: int| 0 <= i < pre.len() && pre[i] == c;
                        if i < p {
                            assert(v@[i] == c);
                        } else {
                            assert(i != p);
                            assert(v@[i - 1] == c);
                        }
                    }
                }
            }
            return;
        }
        p += 1;
    }
    proof {
        assert forall|c: ComponentId| #[trigger] v@.contains(c) <==> (old(v)@.contains(c) && c != cid) by {}
    }
}

/// An injective sequence of indexes below `n` is at most `n` long.
proof fn lemma_injective_len(s: Seq<int>, n: int)
    requires
        0 <= n,
        forall|i: int| 0 <= i < s.len() ==> 0 <= #[trigger] s[i] < n,
        forall|i: int, j: int| 0 <= i < j < s.len() ==> #[trigger] s[i] != #[trigger] s[j],
    ensures
        s.len() <= n,
{
    assert(s.no_duplicates());
    s.unique_seq_to_set();
    lemma_int_range(0, n);
    assert(s.to_set().subset_of(set_int_range(0, n)));
    lemma_len_subset(s.to_set(), set_int_range(0, n));
}

impl<V> Bookkeeping<V> {
    /// Exact component set of archetype `a`.
    pub open spec fn key(&self, a: int) -> Seq<ComponentId> {
        self.exact_archetype@[a]@
    }

    /// The component has a size, so archetypes keep a column for it.
    pub open spec fn sized(&self, c: ComponentId) -> bool {
        self.components@[c.spec_id() as int].layout_size > 0
    }

    /// `c` is a registered component, or the target side of a registered relation.
    pub open spec fn valid_cid(&self, c: ComponentId) -> bool {
        let k = c.spec_id() as int;
        &&& 0 <= k < self.components@.len()
        &&& (c == self.components@[k].id || (self.components@[k].id.spec_is_relation() && c
            == self.components@[k].id.spec_flip_target()))
    }

    /// Archetype of the entity in slot `i`.
    pub open spec fn slot_arch(&self, i: int) -> int {
        self.entities.archetype_of(i).0 as int
    }

    /// Row of the entity in slot `i`.
    pub open spec fn slot_row(&self, i: int) -> int {
        self.entities.row_of(i).0 as int
    }

    /// The components of the entity in slot `i`.
    pub open spec fn entity_key(&self, i: int) -> Seq<ComponentId> {
        self.key(self.slot_arch(i))
    }

    /// The value of component `c` of the entity in slot `i` (for components with a size).
    pub open spec fn entity_value(&self, i: int, c: ComponentId) -> ComponentValue<V> {
        let a = self.archetypes@[self.slot_arch(i)];
        a.columns@[a.components@.index_of(c)]@[self.slot_row(i)]
    }

    pub open spec fn alive(&self, e: Entity) -> bool {
        self.entities.entity_alive(e)
    }

    pub open spec fn wf_components(&self) -> bool {
        &&& self.components@.len() <= ID_MASK + 1
        &&& forall|k: int|
            0 <= k < self.components@.len() ==> (#[trigger] self.components@[k]).id.spec_id() == k
                && !self.components@[k].id.spec_is_target() && (self.components@[k].id.spec_is_relation()
                ==> self.components@[k].layout_size > 0)
    }

    pub open spec fn wf_archetypes(&self) -> bool {
        &&& 1 <= self.archetypes@.len()
        &&& self.archetypes@.len() == self.exact_archetype@.len()
        &&& self.archetypes@.len() <= BITSET_CAPACITY
        &&& self.key(EMPTY_ARCHETYPE_ID as int) == Seq::<ComponentId>::empty()
        &&& forall|a: int|
            0 <= a < self.archetypes@.len() ==> (#[trigger] self.archetypes@[a]).wf()
        &&& forall|a: int|
            0 <= a < self.archetypes@.len() ==> sorted_ids(#[trigger] self.exact_archetype@[a]@)
        &&& forall|a: int, c: ComponentId|
            0 <= a < self.archetypes@.len() && #[trigger] self.exact_archetype@[a]@.contains(c)
                ==> self.valid_cid(c)
        &&& forall|a: int, c: ComponentId|
            0 <= a < self.archetypes@.len() ==> (#[trigger] self.archetypes@[a].components@.contains(
                c,
            ) <==> (self.exact_archetype@[a]@.contains(c) && self.sized(c)))
        &&& forall|a: int, b: int|
            0 <= a < self.archetypes@.len() && 0 <= b < self.archetypes@.len() && a != b
                ==> #[trigger] self.exact_archetype@[a]@ != #[trigger] self.exact_archetype@[b]@
    }

    pub open spec fn wf_locations(&self) -> bool {
        self.locations_except(-1)
    }

    /// Every row names a living entity that points back to it, and every living entity
    /// other than slot `x` points to a row that names it.
    pub open spec fn locations_except(&self, x: int) -> bool {
        &&& forall|a: int, r: int|
            0 <= a < self.archetypes@.len() && 0 <= r < self.archetypes@[a].entities@.len() ==> {
                let i = (#[trigger] self.archetypes@[a].entities@[r]).0 as int;
                &&& i != x
                &&& self.entities.slot_alive(i)
                &&& self.slot_arch(i) == a
                &&& self.slot_row(i) == r
            }
        &&& forall|i: int|
            #[trigger] self.entities.slot_alive(i) && i != x ==> {
                &&& 0 <= self.slot_arch(i) < self.archetypes@.len()
                &&& 0 <= self.slot_row(i) < self.archetypes@[self.slot_arch(i)].entities@.len()
                &&& self.archetypes@[self.slot_arch(i)].entities@[self.slot_row(i)].0 == i
            }
    }

    pub open spec fn wf_sets(&self) -> bool {
        &&& forall|k: int, x: usize|
            0 <= k < self.components@.len() && #[trigger] self.components@[k].origin_set().contains(
                x,
            ) ==> x < self.archetypes@.len()
        &&& forall|k: int, x: usize|
            0 <= k < self.components@.len() && #[trigger] self.components@[k].target_set().contains(
                x,
            ) ==> x < self.archetypes@.len()
        &&& forall|a: int, c: ComponentId|
            0 <= a < self.archetypes@.len() && self.valid_cid(c) ==> (
            #[trigger] self.components@[c.spec_id() as int].set_for(c).contains(a as usize)
                <==> #[trigger] self.exact_archetype@[a]@.contains(c))
    }

    pub open spec fn wf(&self) -> bool {
        &&& self.entities.wf()
        &&& self.wf_components()
        &&& self.wf_archetypes()
        &&& self.wf_locations()
        &&& self.wf_sets()
    }

    /// Slot `i` holds the same living entity with the same components and values in both.
    pub open spec fn same_entity(&self, old: &Self, i: int) -> bool {
        &&& self.entities.slot_alive(i)
        &&& self.entities.gen_of(i) == old.entities.gen_of(i)
        &&& self.entity_key(i) == old.entity_key(i)
        &&& forall|c: ComponentId|
            #[trigger] old.entity_key(i).contains(c) && old.sized(c) ==> self.entity_value(i, c)
                == old.entity_value(i, c)
    }

    /// The component types are the same in both.
    pub open spec fn same_components(&self, old: &Self) -> bool {
        &&& self.components@.len() == old.components@.len()
        &&& forall|k: int|
            0 <= k < self.components@.len() ==> (#[trigger] self.components@[k]).id
                == old.components@[k].id && self.components@[k].layout_size
                == old.components@[k].layout_size
    }


    pub fn new() -> (r: Self)
        ensures
            r.wf(),
            r.components@.len() == 0,
            r.archetypes@.len() == 1,
            r.entities.count() == 0,
            r.entities.deferred_spec() == 0,
            r.relations_consistent(),
    {
        let mut archetypes: Vec<Archetype<V>> = Vec::new();
        let empty_archetype = Archetype::new(Vec::new(), Vec::new());
        archetypes.push(empty_archetype);
        let mut exact_archetype: Vec<Vec<ComponentId>> = Vec::new();
        exact_archetype.push(Vec::new());
        let r = Bookkeeping {
            components: Vec::new(),
            archetypes,
            entities: EntityStore::new(),
            exact_archetype,
        };
        proof {
            assert(r.key(0) =~= Seq::<ComponentId>::empty());
            assert forall|i: int| #[trigger] r.entities.slot_alive(i) implies false by {}
        }
        r
    }

    /// Registers a new component type; returns its id (the index part is its position).
    /// `flags` may only hold flag bits. Values of components with `layout_size == 0` get no column.
    pub fn register(&mut self, flags: u32, name: String, layout_size: usize, layout_align: usize) -> (r:
        ComponentId)
        requires
            old(self).wf(),
            old(self).components@.len() <= ID_MASK,
            flags & ID_MASK == 0,
            flags & crate::component::IS_TARGET == 0,
            flags & crate::component::RELATION != 0 ==> layout_size > 0,
        ensures
            final(self).wf(),
            r.spec_id() == old(self).components@.len(),
            r.bits() == (old(self).components@.len() as u32) | flags,
            final(self).components@.len() == old(self).components@.len() + 1,
            final(self).components@.last().id == r,
            final(self).components@.last().layout_size == layout_size,
            forall|k: int|
                0 <= k < old(self).components@.len() ==> #[trigger] final(self).components@[k]
                    == old(self).components@[k],
            final(self).archetypes == old(self).archetypes,
            final(self).exact_archetype == old(self).exact_archetype,
            final(self).entities == old(self).entities,
    {
        let cid = ComponentId::from_usize(self.components.len());
        let cid = cid.set_flags(flags);
        proof {
            let b = self.components@.len() as u32;
            assert(flags & 0xffffffu32 == 0 && flags & 0x40000000u32 == 0 && b <= 0xffffffu32
                ==> (b | flags) & 0x40000000u32 == 0) by (bit_vector);
            assert(b <= 0xffffffu32 ==> ((b | flags) & 0x80000000u32 != 0) == (flags & 0x80000000u32
                != 0)) by (bit_vector);
        }
        let c = Component::new(cid, name, layout_size, layout_align);
        self.components.push(c);
        proof {
            let k = old(self).components@.len() as int;
            assert forall|a: int, c: ComponentId|
                0 <= a < self.archetypes@.len() && self.valid_cid(c) implies (
                #[trigger] self.components@[c.spec_id() as int].set_for(c).contains(a as usize)
                    <==> #[trigger] self.exact_archetype@[a]@.contains(c)) by {
                if c.spec_id() == k {
                    // the new component is in no archetype yet
                    assert(!old(self).valid_cid(c));
                    if self.exact_archetype@[a]@.contains(c) {
                        assert(old(self).valid_cid(c));
                    }
                } else {
                    assert(old(self).valid_cid(c));
                }
            }
            assert forall|a: int, c: ComponentId|
                0 <= a < self.archetypes@.len() && #[trigger] self.exact_archetype@[a]@.contains(c)
                    implies self.valid_cid(c) by {
                assert(old(self).valid_cid(c));
            }
            assert forall|a: int, c: ComponentId|
                0 <= a < self.archetypes@.len() implies (
                #[trigger] self.archetypes@[a].components@.contains(c) <==> (
                self.exact_archetype@[a]@.contains(c) && self.sized(c))) by {
                if self.exact_archetype@[a]@.contains(c) {
                    assert(old(self).valid_cid(c));
                }
                if self.archetypes@[a].components@.contains(c) {
                    assert(old(self).exact_archetype@[a]@.contains(c));
                    assert(old(self).valid_cid(c));
                }
            }
        }
        cid
    }

    /// Number of archetypes.
    pub fn archetype_count(&self) -> (r: usize)
        ensures
            r == self.archetypes@.len(),
    {
        self.archetypes.len()
    }

    pub fn is_alive(&self, e: Entity) -> (r: bool)
        ensures
            r == self.alive(e),
    {
        self.entities.is_alive(e)
    }

    /// Keys, component types, and archetype component lists did not change.
    pub open spec fn same_tables(&self, old: &Self) -> bool {
        &&& self.same_components(old)
        &&& self.archetypes@.len() == old.archetypes@.len()
        &&& self.exact_archetype@ == old.exact_archetype@
    }

    proof fn lemma_empty_archetype_has_no_columns(&self)
        requires
            self.wf_archetypes(),
        ensures
            self.archetypes@[0].components@.len() == 0,
            self.archetypes@[0].columns@.len() == 0,
    {
        let comps = self.archetypes@[0].components@;
        if comps.len() > 0 {
            assert(comps.contains(comps[0]));
            assert(self.exact_archetype@[0]@.contains(comps[0]));
        }
    }

    /// All of `wf` except that the living entity `e` has no row yet.
    pub open spec fn wf_but_unplaced(&self, e: Entity) -> bool {
        &&& self.entities.wf()
        &&& self.wf_components()
        &&& self.wf_archetypes()
        &&& self.locations_except(e.id.0 as int)
        &&& self.wf_sets()
        &&& self.entities.entity_alive(e)
        &&& e.generation.0 % 2 == 1
    }

    /// Appends the living entity `e`, which has no row yet, to the empty archetype.
    fn place_in_empty_archetype(&mut self, e: Entity)
        requires
            old(self).wf_but_unplaced(e),
        ensures
            final(self).wf(),
            final(self).alive(e),
            final(self).entity_key(e.id.0 as int) == Seq::<ComponentId>::empty(),
            final(self).same_tables(old(self)),
            final(self).entities.count() == old(self).entities.count(),
            final(self).entities.free_list() == old(self).entities.free_list(),
            final(self).entities.next_free_spec() == old(self).entities.next_free_spec(),
            final(self).entities.deferred_spec() == old(self).entities.deferred_spec(),
            forall|i: int|
                0 <= i < old(self).entities.count() ==> #[trigger] final(self).entities.gen_of(i)
                    == old(self).entities.gen_of(i),
            forall|i: int|
                old(self).entities.slot_alive(i) && i != e.id.0 ==> #[trigger] final(self).same_entity(old(self), i),
            forall|i: int|
                #[trigger] final(self).entities.slot_alive(i) <==> old(self).entities.slot_alive(
                    i,
                ),
    {
        proof {
            let ents = self.archetypes@[0].entities@;
            let s = ents.map_values(|x: EntityId| x.0 as int);
            assert forall|i: int| 0 <= i < s.len() implies 0 <= #[trigger] s[i]
                < self.entities.count() && s[i] != e.id.0 by {
                assert(self.entities.slot_alive(ents[i].0 as int));
            }
            assert forall|i: int, j: int| 0 <= i < j < s.len() implies #[trigger] s[i]
                != #[trigger] s[j] by {
                assert(self.slot_row(ents[i].0 as int) == i);
                assert(self.slot_row(ents[j].0 as int) == j);
            }
            // the rows hold other slots than `e`'s, so there is room for one more below `count`
            let s2 = s.push(e.id.0 as int);
            assert forall|i: int, j: int| 0 <= i < j < s2.len() implies #[trigger] s2[i]
                != #[trigger] s2[j] by {
                if j < s.len() {
                    assert(s2[i] == s[i] && s2[j] == s[j]);
                }
            }
            lemma_injective_len(s2, self.entities.count() as int);
            self.lemma_empty_archetype_has_no_columns();
            self.entities.lemma_free_list();
        }
        let row = ArchetypeRow(self.archetypes[0].entities.len() as u32);
        self.archetypes[0].entities.push(e.id);
        let ghost mid = self.entities;
        self.entities.set_archetype(e, ArchetypeId(EMPTY_ARCHETYPE_ID), row);
        proof {
            let o = old(self);
            let id = e.id.0 as int;
            assert forall|a: int| 0 <= a < self.archetypes@.len() && a != 0 implies #[trigger] self.archetypes@[a]
                == o.archetypes@[a] by {}
            assert(self.archetypes@[0].entities@ == o.archetypes@[0].entities@.push(e.id));
            assert(self.archetypes@[0].components == o.archetypes@[0].components);
            assert(self.archetypes@[0].columns == o.archetypes@[0].columns);
            assert forall|i: int| #[trigger] self.entities.slot_alive(i) && i != id implies (
            o.entities.slot_alive(i) && self.slot_arch(i) == o.slot_arch(i) && self.slot_row(i)
                == o.slot_row(i)) by {
                assert(self.entities.same_slot(&o.entities, i));
            }
            assert forall|a: int, r: int|
                0 <= a < self.archetypes@.len() && 0 <= r < self.archetypes@[a].entities@.len()
                    implies {
                let i = (#[trigger] self.archetypes@[a].entities@[r]).0 as int;
                &&& i != -1
                &&& self.entities.slot_alive(i)
                &&& self.slot_arch(i) == a
                &&& self.slot_row(i) == r
            } by {
                if a == 0 && r == o.archetypes@[0].entities@.len() {
                } else {
                    let i = o.archetypes@[a].entities@[r].0 as int;
                    assert(o.entities.slot_alive(i));
                    assert(i != id);
                    assert(self.entities.same_slot(&o.entities, i));
                }
            }
            assert forall|i: int| #[trigger] self.entities.slot_alive(i) && i != -1 implies {
                &&& 0 <= self.slot_arch(i) < self.archetypes@.len()
                &&& 0 <= self.slot_row(i) < self.archetypes@[self.slot_arch(i)].entities@.len()
                &&& self.archetypes@[self.slot_arch(i)].entities@[self.slot_row(i)].0 == i
            } by {
                if i != id {
                    assert(o.entities.slot_alive(i));
                }
            }
            assert forall|i: int| o.entities.slot_alive(i) && i != id implies #[trigger] self.same_entity(
                o,
                i,
            ) by {
                assert(self.entities.same_slot(&o.entities, i));
            }
            assert forall|i: int| #[trigger] self.entities.slot_alive(i) <==> o.entities.slot_alive(i) by {
                if 0 <= i < o.entities.count() && i != id {
                    assert(self.entities.same_slot(&o.entities, i));
                }
            }
            assert forall|i: int| 0 <= i < o.entities.count() implies #[trigger] self.entities.gen_of(i)
                == o.entities.gen_of(i) by {
                if i != id {
                    assert(self.entities.same_slot(&o.entities, i));
                }
            }
            assert(self.archetypes@[0].wf());
        }
    }

    /// Creates an entity in the empty archetype.
    fn create_inner(&mut self) -> (e: Entity)
        requires
            old(self).wf(),
            old(self).entities.count() < u32::MAX,
        ensures
            final(self).wf(),
            e == old(self).entities.deferred_entity(0),
            forall|k: nat|
                #[trigger] final(self).entities.deferred_entity(k) == old(self).entities.deferred_entity(k + 1),
            final(self).alive(e),
            e.generation.0 % 2 == 1,
            !old(self).entities.slot_alive(e.id.0 as int),
            final(self).entity_key(e.id.0 as int) == Seq::<ComponentId>::empty(),
            final(self).same_tables(old(self)),
            final(self).entities.deferred_spec() == old(self).entities.deferred_spec(),
            final(self).entities.count() <= old(self).entities.count() + 1,
            forall|i: int|
                old(self).entities.slot_alive(i) ==> #[trigger] final(self).same_entity(old(self), i),
            forall|i: int|
                #[trigger] final(self).entities.slot_alive(i) ==> i == e.id.0 || old(self).entities.slot_alive(i),
            old(self).relations_consistent() ==> final(self).relations_consistent(),
    {
        let e = self.entities.create();
        let ghost mid = *self;
        proof {
            let o = old(self);
            let id = e.id.0 as int;
            assert forall|a: int, r: int|
                0 <= a < mid.archetypes@.len() && 0 <= r < mid.archetypes@[a].entities@.len()
                    implies {
                let i = (#[trigger] mid.archetypes@[a].entities@[r]).0 as int;
                &&& i != id
                &&& mid.entities.slot_alive(i)
                &&& mid.slot_arch(i) == a
                &&& mid.slot_row(i) == r
            } by {
                let i = o.archetypes@[a].entities@[r].0 as int;
                assert(o.entities.slot_alive(i));
                assert(mid.entities.same_slot(&o.entities, i));
            }
            assert forall|i: int| #[trigger] mid.entities.slot_alive(i) && i != id implies {
                &&& 0 <= mid.slot_arch(i) < mid.archetypes@.len()
                &&& 0 <= mid.slot_row(i) < mid.archetypes@[mid.slot_arch(i)].entities@.len()
                &&& mid.archetypes@[mid.slot_arch(i)].entities@[mid.slot_row(i)].0 == i
            } by {
                assert(mid.entities.same_slot(&o.entities, i));
                assert(o.entities.slot_alive(i));
            }
        }
        self.place_in_empty_archetype(e);
        proof {
            let o = old(self);
            let id = e.id.0 as int;
            assert forall|i: int| o.entities.slot_alive(i) implies #[trigger] self.same_entity(o, i) by {
                assert(i != id);
                assert(mid.entities.same_slot(&o.entities, i));
                assert(self.same_entity(&mid, i));
            }
            assert forall|i: int| #[trigger] self.entities.slot_alive(i) implies i == id
                || o.entities.slot_alive(i) by {
                assert(mid.entities.slot_alive(i));
                if i != id && i < o.entities.count() {
                    assert(mid.entities.same_slot(&o.entities, i));
                }
            }
            assert forall|k: nat| #[trigger] self.entities.deferred_entity(k)
                == o.entities.deferred_entity(k + 1) by {
                EntityStore::lemma_create_shifts_deferred(&o.entities, &mid.entities, e, k);
                mid.entities.lemma_free_list();
                if k < mid.entities.free_list().len() {
                    let j = mid.entities.free_list()[k as int] as int;
                    assert(self.entities.gen_of(j) == mid.entities.gen_of(j));
                }
            }
            if o.relations_consistent() {
                assert forall|i: int| #[trigger] self.entities.slot_alive(i) <==> (o.entities.slot_alive(i) || i == id) by {
                    if o.entities.slot_alive(i) {
                        assert(self.same_entity(o, i));
                    }
                }
                Self::lemma_fresh_consistent(self, o, id);
            }
        }
        e
    }

    pub(crate) proof fn lemma_same_entity_trans(c: &Self, b: &Self, a: &Self, i: int)
        requires
            a.wf(),
            a.entities.slot_alive(i),
            c.same_entity(b, i),
            b.same_entity(a, i),
            b.same_components(a),
        ensures
            c.same_entity(a, i),
    {
        assert forall|x: ComponentId| #[trigger] a.entity_key(i).contains(x) && a.sized(x) implies c.entity_value(i, x)
            == a.entity_value(i, x) by {
            assert(a.valid_cid(x));
            assert(b.sized(x));
        }
    }

    proof fn lemma_same_components_trans(c: &Self, b: &Self, a: &Self)
        requires
            c.same_tables(b),
            b.same_tables(a),
        ensures
            c.same_tables(a),
    {
        assert forall|k: int| 0 <= k < c.components@.len() implies (#[trigger] c.components@[k]).id
            == a.components@[k].id && c.components@[k].layout_size == a.components@[k].layout_size by {
            assert(b.components@[k].id == a.components@[k].id);
        }
    }

    /// Changing only the deferred counter of the entity store keeps everything in place.
    proof fn lemma_same_entities(&self, old: &Self)
        requires
            old.wf(),
            self.entities.wf(),
            self.entities.same_entities(&old.entities),
            self.archetypes == old.archetypes,
            self.components == old.components,
            self.exact_archetype == old.exact_archetype,
        ensures
            self.wf(),
            self.same_tables(old),
            forall|i: int| #[trigger] self.entities.slot_alive(i) <==> old.entities.slot_alive(i),
            forall|i: int| old.entities.slot_alive(i) ==> #[trigger] self.same_entity(old, i),
    {
        assert forall|i: int| #[trigger] self.entities.slot_alive(i) <==> old.entities.slot_alive(i) by {
            if 0 <= i < old.entities.count() {
                assert(self.entities.same_slot(&old.entities, i));
            }
        }
        assert forall|i: int| #[trigger] self.entities.slot_alive(i) implies self.slot_arch(i)
            == old.slot_arch(i) && self.slot_row(i) == old.slot_row(i) by {
            assert(self.entities.same_slot(&old.entities, i));
        }
        assert forall|a: int, r: int|
            0 <= a < self.archetypes@.len() && 0 <= r < self.archetypes@[a].entities@.len() implies {
            let i = (#[trigger] self.archetypes@[a].entities@[r]).0 as int;
            &&& i != -1
            &&& self.entities.slot_alive(i)
            &&& self.slot_arch(i) == a
            &&& self.slot_row(i) == r
        } by {
            let i = self.archetypes@[a].entities@[r].0 as int;
            assert(old.archetypes@[a].entities@[r].0 as int == i);
            assert(old.entities.slot_alive(i));
            assert(self.entities.same_slot(&old.entities, i));
        }
        assert forall|i: int| old.entities.slot_alive(i) implies #[trigger] self.same_entity(old, i) by {
            assert(self.entities.same_slot(&old.entities, i));
        }
    }

    /// `self` is `old` with the entities handed out by `create_deferred` created: the
    /// tables and the living entities stay, each handed-out entity lives without
    /// components, and nothing else came alive.
    pub open spec fn realizes(&self, old: &Self) -> bool {
        &&& self.entities.deferred_spec() == 0
        &&& self.same_tables(old)
        &&& forall|i: int| old.entities.slot_alive(i) ==> #[trigger] self.same_entity(old, i)
        &&& forall|k: nat|
            k < old.entities.deferred_spec() ==> self.alive(#[trigger] old.entities.deferred_entity(k))
                && self.entity_key(old.entities.deferred_entity(k).id.0 as int) == Seq::<ComponentId>::empty()
        &&& forall|i: int|
            #[trigger] self.entities.slot_alive(i) ==> old.entities.slot_alive(i) || exists|k: nat|
                k < old.entities.deferred_spec() && old.entities.deferred_entity(k).id.0 == i
    }

    /// Creates the entities that were handed out by `create_deferred`, in order.
    pub fn realize_deferred(&mut self)
        requires
            old(self).wf(),
            old(self).entities.count() + old(self).entities.deferred_spec() < u32::MAX,
        ensures
            final(self).wf(),
            final(self).entities.deferred_spec() == 0,
            final(self).same_tables(old(self)),
            final(self).realizes(old(self)),
            final(self).entities.count() <= old(self).entities.count() + old(self).entities.deferred_spec(),
            old(self).entities.deferred_spec() == 0 ==> final(self).entities.count() == old(self).entities.count()
                && final(self).entities.free_list() == old(self).entities.free_list(),
            forall|i: int|
                old(self).entities.slot_alive(i) ==> #[trigger] final(self).same_entity(old(self), i),
            forall|k: nat|
                k < old(self).entities.deferred_spec() ==> final(self).alive(
                    #[trigger] old(self).entities.deferred_entity(k),
                ) && final(self).entity_key(old(self).entities.deferred_entity(k).id.0 as int)
                    == Seq::<ComponentId>::empty() && old(self).entities.deferred_entity(
                    k,
                ).generation.0 % 2 == 1,
            forall|k: nat|
                #[trigger] final(self).entities.deferred_entity(k) == old(self).entities.deferred_entity(
                    (k + old(self).entities.deferred_spec()) as nat,
                ),
            forall|i: int|
                #[trigger] final(self).entities.slot_alive(i) ==> old(self).entities.slot_alive(i)
                    || exists|k: nat|
                    k < old(self).entities.deferred_spec() && old(self).entities.deferred_entity(
                        k,
                    ).id.0 == i,
            old(self).relations_consistent() ==> final(self).relations_consistent(),
    {
        let n = self.entities.realize_deferred();
        let ghost o = *old(self);
        proof {
            self.lemma_same_entities(&o);
            o.entities.lemma_free_list();
            assert forall|k: nat| #[trigger] self.entities.deferred_entity(k)
                == o.entities.deferred_entity(k) by {
                if k < o.entities.free_list().len() {
                    let j = o.entities.free_list()[k as int] as int;
                    assert(self.entities.same_slot(&o.entities, j));
                }
            }
            assert forall|i: int| o.entities.slot_alive(i) implies #[trigger] self.same_entity(&o, i) by {
                assert(self.entities.same_slot(&o.entities, i));
            }
            assert(self.same_components(&o));
            if o.relations_consistent() {
                assert forall|i: int, c: ComponentId|
                    o.entities.slot_alive(i) && o.valid_cid(c) && c.spec_is_relation() implies #[trigger] self.partners(i, c) == o.partners(i, c) by {
                    Self::lemma_same_entity_partners(self, &o, i, c);
                }
                Self::lemma_frame_consistent(self, &o);
            }
        }
        let mut i: usize = 0;
        while i < n
            invariant
                self.wf(),
                o.wf(),
                o.relations_consistent() ==> self.relations_consistent(),
                n == o.entities.deferred_spec(),
                o.entities.count() + n < u32::MAX,
                0 <= i <= n,
                self.entities.deferred_spec() == 0,
                self.same_tables(&o),
                self.entities.count() <= o.entities.count() + i,
                i == 0 ==> self.entities.count() == o.entities.count() && self.entities.free_list()
                    == o.entities.free_list(),
                forall|j: int| o.entities.slot_alive(j) ==> #[trigger] self.same_entity(&o, j),
                forall|k: nat|
                    k < i ==> self.alive(#[trigger] o.entities.deferred_entity(k)) && self.entity_key(
                        o.entities.deferred_entity(k).id.0 as int,
                    ) == Seq::<ComponentId>::empty() && o.entities.deferred_entity(k).generation.0 % 2
                        == 1,
                forall|k: nat|
                    #[trigger] self.entities.deferred_entity(k) == o.entities.deferred_entity((k + i) as nat),
                forall|j: int|
                    #[trigger] self.entities.slot_alive(j) ==> o.entities.slot_alive(j) || exists|k: nat|
                        k < i && o.entities.deferred_entity(k).id.0 == j,
            decreases n - i,
        {
            let ghost pre = *self;
            let e = self.create_inner();
            proof {
                assert(e == o.entities.deferred_entity(i as nat)) by {
                    assert(pre.entities.deferred_entity(0) == o.entities.deferred_entity(i as nat));
                }
                assert forall|j: int| o.entities.slot_alive(j) implies #[trigger] self.same_entity(&o, j) by {
                    assert(pre.same_entity(&o, j));
                    assert(self.same_entity(&pre, j));
                    Self::lemma_same_entity_trans(self, &pre, &o, j);
                }
                Self::lemma_same_components_trans(self, &pre, &o);
                assert forall|k: nat| k < i + 1 implies self.alive(#[trigger] o.entities.deferred_entity(k))
                    && self.entity_key(o.entities.deferred_entity(k).id.0 as int)
                    == Seq::<ComponentId>::empty() && o.entities.deferred_entity(k).generation.0 % 2
                    == 1 by {
                    if k < i {
                        let d = o.entities.deferred_entity(k);
                        assert(pre.alive(d));
                        assert(pre.entities.slot_alive(d.id.0 as int));
                        assert(self.same_entity(&pre, d.id.0 as int));
                    }
                }
                assert forall|k: nat| #[trigger] self.entities.deferred_entity(k)
                    == o.entities.deferred_entity((k + (i + 1)) as nat) by {
                    assert(self.entities.deferred_entity(k) == pre.entities.deferred_entity(k + 1));
                    assert(pre.entities.deferred_entity(k + 1) == o.entities.deferred_entity(
                        (k + 1 + i) as nat,
                    ));
                }
                assert forall|j: int| #[trigger] self.entities.slot_alive(j) implies o.entities.slot_alive(j)
                    || exists|k: nat| k < i + 1 && o.entities.deferred_entity(k).id.0 == j by {
                    if j == e.id.0 {
                        assert(o.entities.deferred_entity(i as nat).id.0 == j);
                    } else {
                        assert(pre.entities.slot_alive(j));
                    }
                }
            }
            i += 1;
        }
    }

    /// Realizes the deferred creations, then creates an entity without components.
    pub fn create(&mut self) -> (e: Entity)
        requires
            old(self).wf(),
            old(self).entities.count() + old(self).entities.deferred_spec() + 1 < u32::MAX,
        ensures
            final(self).wf(),
            final(self).alive(e),
            e.generation.0 % 2 == 1,
            e == old(self).entities.deferred_entity(old(self).entities.deferred_spec() as nat),
            !old(self).entities.slot_alive(e.id.0 as int),
            final(self).entity_key(e.id.0 as int) == Seq::<ComponentId>::empty(),
            final(self).entities.deferred_spec() == 0,
            final(self).entities.count() <= old(self).entities.count() + old(self).entities.deferred_spec() + 1,
            final(self).same_tables(old(self)),
            forall|i: int|
                old(self).entities.slot_alive(i) ==> #[trigger] final(self).same_entity(old(self), i),
            forall|k: nat|
                k < old(self).entities.deferred_spec() ==> final(self).alive(
                    #[trigger] old(self).entities.deferred_entity(k),
                ),
            old(self).relations_consistent() ==> final(self).relations_consistent(),
    {
        self.realize_deferred();
        let ghost mid = *self;
        let e = self.create_inner();
        proof {
            let o = old(self);
            assert(mid.entities.deferred_entity(0) == o.entities.deferred_entity(
                o.entities.deferred_spec() as nat,
            ));
            assert forall|i: int| o.entities.slot_alive(i) implies #[trigger] self.same_entity(o, i) by {
                assert(mid.same_entity(o, i));
                assert(self.same_entity(&mid, i));
                Self::lemma_same_entity_trans(self, &mid, o, i);
            }
            Self::lemma_same_components_trans(self, &mid, o);
            assert forall|k: nat| k < o.entities.deferred_spec() implies self.alive(
                #[trigger] o.entities.deferred_entity(k),
            ) by {
                let d = o.entities.deferred_entity(k);
                assert(mid.alive(d));
                assert(mid.entities.slot_alive(d.id.0 as int));
                assert(self.same_entity(&mid, d.id.0 as int));
            }
            if o.entities.slot_alive(e.id.0 as int) {
                assert(mid.same_entity(o, e.id.0 as int));
            }
        }
        e
    }

    /// Hands out the entity that the next realization creates; the bookkeeping does not change.
    pub fn create_deferred(&mut self) -> (e: Entity)
        requires
            old(self).wf(),
            old(self).entities.count() + old(self).entities.deferred_spec() < usize::MAX,
        ensures
            final(self).wf(),
            e == old(self).entities.deferred_entity(old(self).entities.deferred_spec() as nat),
            final(self).entities.deferred_spec() == old(self).entities.deferred_spec() + 1,
            final(self).entities.same_entities(&old(self).entities),
            final(self).archetypes == old(self).archetypes,
            final(self).components == old(self).components,
            final(self).exact_archetype == old(self).exact_archetype,
            old(self).relations_consistent() ==> final(self).relations_consistent(),
    {
        let e = self.entities.create_deferred();
        proof {
            self.lemma_same_entities(old(self));
            if old(self).relations_consistent() {
                assert forall|i: int, c: ComponentId|
                    old(self).entities.slot_alive(i) && old(self).valid_cid(c) && c.spec_is_relation() implies #[trigger] self.partners(i, c) == old(self).partners(i, c) by {
                    Self::lemma_same_entity_partners(self, old(self), i, c);
                }
                Self::lemma_frame_consistent(self, old(self));
            }
        }
        e
    }

    /// Turns an `EntityId` into an `Entity`; if the slot is not alive, makes it alive
    /// (without components), growing the entity store if needed.
    ///
    /// Returns `None` only for the id `u32::MAX`, which no slot of the store can have.
    pub fn ensure_alive(&mut self, id: EntityId) -> (r: Option<Entity>)
        requires
            old(self).wf(),
            old(self).entities.count() + old(self).entities.deferred_spec() < u32::MAX,
        ensures
            final(self).wf(),
            final(self).entities.deferred_spec() == 0,
            final(self).same_tables(old(self)),
            forall|i: int|
                old(self).entities.slot_alive(i) ==> #[trigger] final(self).same_entity(old(self), i),
            forall|k: nat|
                k < old(self).entities.deferred_spec() ==> final(self).alive(
                    #[trigger] old(self).entities.deferred_entity(k),
                ),
            match r {
                Some(e) => {
                    &&& e.id == id
                    &&& final(self).alive(e)
                    &&& e.generation.0 % 2 == 1
                },
                None => id.0 >= final(self).entities.count() && !final(self).entities.force_alive_allowed(id),
            },
            old(self).relations_consistent() ==> final(self).relations_consistent(),
    {
        self.realize_deferred();
        if !self.entities.can_force_alive(id) {
            return None;
        }
        let ghost mid = *self;
        match self.entities.force_alive(id) {
            ForceAliveResult::WasAliveBefore(e) => {
                proof {
                    mid.entities.lemma_free_list();
                }
                Some(e)
            },
            ForceAliveResult::MadeAlive(e) => {
                proof {
                    let x = id.0 as int;
                    assert forall|i: int| #[trigger] self.entities.slot_alive(i) && i != x implies (
                    mid.entities.slot_alive(i) && self.slot_arch(i) == mid.slot_arch(i)
                        && self.slot_row(i) == mid.slot_row(i)) by {
                        assert(i < mid.entities.count());
                        assert(self.entities.same_slot(&mid.entities, i));
                    }
                    assert forall|a: int, r: int|
                        0 <= a < self.archetypes@.len() && 0 <= r
                            < self.archetypes@[a].entities@.len() implies {
                        let i = (#[trigger] self.archetypes@[a].entities@[r]).0 as int;
                        &&& i != x
                        &&& self.entities.slot_alive(i)
                        &&& self.slot_arch(i) == a
                        &&& self.slot_row(i) == r
                    } by {
                        let i = mid.archetypes@[a].entities@[r].0 as int;
                        assert(mid.entities.slot_alive(i));
                        assert(self.entities.same_slot(&mid.entities, i));
                    }
                }
                let ghost m2 = *self;
                self.place_in_empty_archetype(e);
                proof {
                    let o = old(self);
                    assert forall|i: int| o.entities.slot_alive(i) implies #[trigger] self.same_entity(
                        o,
                        i,
                    ) by {
                        assert(mid.same_entity(o, i));
                        assert(mid.entities.slot_alive(i));
                        assert(i != id.0);
                        assert(m2.entities.same_slot(&mid.entities, i));
                        assert(m2.same_entity(&mid, i));
                        assert(self.same_entity(&m2, i));
                        Self::lemma_same_entity_trans(self, &m2, &mid, i);
                        Self::lemma_same_entity_trans(self, &mid, o, i);
                    }
                    if o.relations_consistent() {
                        let x = id.0 as int;
                        assert(mid.relations_consistent());
                        assert forall|i: int| #[trigger] self.entities.slot_alive(i) <==> (mid.entities.slot_alive(i) || i == x) by {
                            assert(self.entities.slot_alive(i) <==> m2.entities.slot_alive(i));
                            if i != x && 0 <= i < mid.entities.count() {
                                assert(m2.entities.gen_of(i) == mid.entities.gen_of(i));
                            }
                        }
                        assert forall|i: int| mid.entities.slot_alive(i) implies #[trigger] self.same_entity(&mid, i) by {
                            assert(i != x);
                            assert(m2.entities.same_slot(&mid.entities, i));
                            assert(m2.same_entity(&mid, i));
                            Self::lemma_same_entity_trans(self, &m2, &mid, i);
                        }
                        Self::lemma_fresh_consistent(self, &mid, x);
                    }
                }
                Some(e)
            },
        }
    }

    /// Whether the entity has the registered component `cid`. Dead entities have no
    /// components.
    pub fn has_component(&self, e: Entity, cid: ComponentId) -> (r: bool)
        requires
            self.wf(),
            self.valid_cid(cid),
            e.generation.0 % 2 == 1,
        ensures
            r == (self.alive(e) && self.entity_key(e.id.0 as int).contains(cid)),
    {
        if !self.entities.is_alive(e) {
            // dead entities have no components
            return false;
        }
        let (aid, _) = self.entities.get_archetype(e);
        proof {
            assert(self.entities.slot_alive(e.id.0 as int));
        }
        let comp = &self.components[cid.as_index()];
        comp.has_archetype(aid, cid)
    }

    /// The value of a component of a living entity that has a column for it.
    pub fn get_component(&self, e: Entity, cid: ComponentId) -> (r: &ComponentValue<V>)
        requires
            self.wf(),
            self.alive(e),
            e.generation.0 % 2 == 1,
            self.entity_key(e.id.0 as int).contains(cid),
            self.sized(cid),
        ensures
            *r == self.entity_value(e.id.0 as int, cid),
            entry_fits(cid, *r),
    {
        let (aid, row) = self.entities.get_archetype(e);
        proof {
            assert(self.entities.slot_alive(e.id.0 as int));
            self.lemma_entry(e.id.0 as int, cid);
        }
        let a = &self.archetypes[aid.0 as usize];
        let col = a.find_column(cid);
        col.get(row.0)
    }

    /// The value of a component of the living entity in slot `id`, `None` if it has no column for it.
    pub fn get_component_opt_unchecked(&self, id: EntityId, cid: ComponentId) -> (r: Option<
        &ComponentValue<V>,
    >)
        requires
            self.wf(),
            self.entities.slot_alive(id.0 as int),
        ensures
            match r {
                Some(v) => self.entity_key(id.0 as int).contains(cid) && self.sized(cid) && *v
                    == self.entity_value(id.0 as int, cid) && entry_fits(cid, *v),
                None => !(self.entity_key(id.0 as int).contains(cid) && self.sized(cid)),
            },
    {
        let (aid, row) = self.entities.get_archetype_unchecked(id);
        let a = &self.archetypes[aid.0 as usize];
        proof {
            assert(self.archetypes@[aid.0 as int].wf());
        }
        match a.find_column_opt(cid) {
            Some(col) => {
                proof {
                    self.lemma_entry(id.0 as int, cid);
                }
                Some(col.get(row.0))
            },
            None => None,
        }
    }

    /// The value of a component of a living entity, `None` if it has no column for it.
    pub fn get_component_opt(&self, e: Entity, cid: ComponentId) -> (r: Option<&ComponentValue<V>>)
        requires
            self.wf(),
            self.alive(e),
            e.generation.0 % 2 == 1,
        ensures
            match r {
                Some(v) => self.entity_key(e.id.0 as int).contains(cid) && self.sized(cid) && *v
                    == self.entity_value(e.id.0 as int, cid) && entry_fits(cid, *v),
                None => !(self.entity_key(e.id.0 as int).contains(cid) && self.sized(cid)),
            },
    {
        proof {
            assert(self.entities.slot_alive(e.id.0 as int));
        }
        self.get_component_opt_unchecked(e.id, cid)
    }

    /// Where the value of `cid` of living slot `i` is, and that it fits the component.
    pub(crate) proof fn lemma_entry(&self, i: int, cid: ComponentId)
        requires
            self.wf(),
            self.entities.slot_alive(i),
            self.entity_key(i).contains(cid),
            self.sized(cid),
        ensures
            ({
                let a = self.archetypes@[self.slot_arch(i)];
                &&& a.components@.contains(cid)
                &&& 0 <= a.components@.index_of(cid) < a.columns@.len()
                &&& a.components@[a.components@.index_of(cid)] == cid
                &&& 0 <= self.slot_row(i) < a.columns@[a.components@.index_of(cid)]@.len()
                &&& entry_fits(cid, self.entity_value(i, cid))
            }),
    {
        let ai = self.slot_arch(i);
        let a = self.archetypes@[ai];
        assert(a.wf());
        assert(a.components@.contains(cid));
        let k = a.components@.index_of(cid);
        assert(a.columns@[k]@.len() == a.entities@.len());
    }

    /// Two different valid ids of the same component are its two sides.
    proof fn lemma_valid_sides(&self, c1: ComponentId, c2: ComponentId)
        requires
            self.wf_components(),
            self.valid_cid(c1),
            self.valid_cid(c2),
            c1.spec_id() == c2.spec_id(),
            c1 != c2,
        ensures
            c1.spec_is_target() != c2.spec_is_target(),
    {
        let o = self.components@[c1.spec_id() as int].id;
        o.lemma_flip_target();
    }

    /// Exact archetype with the given (sorted) component set; created if there is none yet.
    pub fn find_archetype_or_create(&mut self, c_ids: Vec<ComponentId>) -> (r: ArchetypeId)
        requires
            old(self).wf(),
            sorted_ids(c_ids@),
            forall|i: int| 0 <= i < c_ids@.len() ==> old(self).valid_cid(#[trigger] c_ids@[i]),
            old(self).archetypes@.len() < BITSET_CAPACITY || exists|a: int|
                0 <= a < old(self).archetypes@.len() && #[trigger] old(self).key(a) == c_ids@,
        ensures
            final(self).wf(),
            r.0 < final(self).archetypes@.len(),
            final(self).key(r.0 as int) == c_ids@,
            final(self).same_components(old(self)),
            final(self).entities == old(self).entities,
            final(self).archetypes@.len() == old(self).archetypes@.len() || (final(self).archetypes@.len() == old(self).archetypes@.len() + 1 && r.0 == old(self).archetypes@.len()
                && final(self).archetypes@[r.0 as int].entities@.len() == 0),
            forall|a: int|
                0 <= a < old(self).archetypes@.len() ==> #[trigger] final(self).archetypes@[a] == old(self).archetypes@[a]
                    && final(self).key(a) == old(self).key(a),
            forall|i: int|
                old(self).entities.slot_alive(i) ==> #[trigger] final(self).same_entity(old(self), i),
    {
        // find
        let mut i: usize = 0;
        while i < self.exact_archetype.len()
            invariant
                self == old(self),
                old(self).wf(),
                0 <= i <= self.exact_archetype@.len(),
                forall|j: int| 0 <= j < i ==> #[trigger] self.key(j) != c_ids@,
            decreases self.exact_archetype@.len() - i,
        {
            if ids_equal(&self.exact_archetype[i], &c_ids) {
                proof {
                    assert forall|j: int| old(self).entities.slot_alive(j) implies #[trigger] self.same_entity(
                        old(self),
                        j,
                    ) by {}
                }
                return ArchetypeId(i as u32);
            }
            i += 1;
        }
        // create
        proof {
            if old(self).archetypes@.len() >= BITSET_CAPACITY {
                let a = choose|a: int|
                    0 <= a < old(self).archetypes@.len() && #[trigger] old(self).key(a) == c_ids@;
                assert(self.key(a) != c_ids@);
            }
        }
        let new_aid = ArchetypeId(self.archetypes.len() as u32);
        let ghost o = *old(self);
        let ghost na = o.archetypes@.len() as usize;
        let mut t: usize = 0;
        while t < c_ids.len()
            invariant
                o == *old(self),
                o.wf(),
                na == o.archetypes@.len(),
                new_aid.0 == na,
                na < BITSET_CAPACITY,
                forall|i: int| 0 <= i < c_ids@.len() ==> o.valid_cid(#[trigger] c_ids@[i]),
                0 <= t <= c_ids@.len(),
                self.archetypes == o.archetypes,
                self.exact_archetype == o.exact_archetype,
                self.entities == o.entities,
                self.components@.len() == o.components@.len(),
                forall|k: int|
                    0 <= k < self.components@.len() ==> (#[trigger] self.components@[k]).id
                        == o.components@[k].id && self.components@[k].layout_size
                        == o.components@[k].layout_size,
                forall|k: int, x: usize|
                    0 <= k < o.components@.len() ==> (#[trigger] self.components@[k].origin_set().contains(x)
                        <==> (o.components@[k].origin_set().contains(x) || (x == na && exists|j: int|
                        0 <= j < t && c_ids@[j].spec_id() == k && !c_ids@[j].spec_is_target()))),
                forall|k: int, x: usize|
                    0 <= k < o.components@.len() ==> (#[trigger] self.components@[k].target_set().contains(x)
                        <==> (o.components@[k].target_set().contains(x) || (x == na && exists|j: int|
                        0 <= j < t && c_ids@[j].spec_id() == k && c_ids@[j].spec_is_target()))),
            decreases c_ids@.len() - t,
        {
            let cid = c_ids[t];
            let ghost pre = self.components@;
            let idx = cid.as_index();
            self.components[idx].insert_archetype(new_aid, cid);
            proof {
                assert(o.valid_cid(c_ids@[t as int]));
                assert forall|k: int, x: usize| 0 <= k < o.components@.len() implies (
                #[trigger] self.components@[k].origin_set().contains(x) <==> (
                o.components@[k].origin_set().contains(x) || (x == na && exists|j: int|
                    0 <= j < t + 1 && c_ids@[j].spec_id() == k && !c_ids@[j].spec_is_target()))) by {
                    if k != idx {
                        assert(self.components@[k] == pre[k]);
                    }
                    if exists|j: int|
                        0 <= j < t + 1 && c_ids@[j].spec_id() == k && !c_ids@[j].spec_is_target() {
                        let j = choose|j: int|
                            0 <= j < t + 1 && c_ids@[j].spec_id() == k && !c_ids@[j].spec_is_target();
                        if j != t {
                            assert(exists|j: int|
                                0 <= j < t && c_ids@[j].spec_id() == k && !c_ids@[j].spec_is_target());
                        }
                    }
                }
                assert forall|k: int, x: usize| 0 <= k < o.components@.len() implies (
                #[trigger] self.components@[k].target_set().contains(x) <==> (
                o.components@[k].target_set().contains(x) || (x == na && exists|j: int|
                    0 <= j < t + 1 && c_ids@[j].spec_id() == k && c_ids@[j].spec_is_target()))) by {
                    if k != idx {
                        assert(self.components@[k] == pre[k]);
                    }
                    if exists|j: int|
                        0 <= j < t + 1 && c_ids@[j].spec_id() == k && c_ids@[j].spec_is_target() {
                        let j = choose|j: int|
                            0 <= j < t + 1 && c_ids@[j].spec_id() == k && c_ids@[j].spec_is_target();
                        if j != t {
                            assert(exists|j: int|
                                0 <= j < t && c_ids@[j].spec_id() == k && c_ids@[j].spec_is_target());
                        }
                    }
                }
            }
            t += 1;
        }
        // the archetype only knows about components that have a size
        let mut a_components: Vec<ComponentId> = Vec::new();
        let mut columns: Vec<LayoutVec<ComponentValue<V>>> = Vec::new();
        let mut t: usize = 0;
        while t < c_ids.len()
            invariant
                o.wf(),
                forall|i: int| 0 <= i < c_ids@.len() ==> o.valid_cid(#[trigger] c_ids@[i]),
                sorted_ids(c_ids@),
                self.components@.len() == o.components@.len(),
                forall|k: int|
                    0 <= k < self.components@.len() ==> (#[trigger] self.components@[k]).id
                        == o.components@[k].id && self.components@[k].layout_size
                        == o.components@[k].layout_size,
                0 <= t <= c_ids@.len(),
                a_components@.len() == columns@.len(),
                forall|c: int| 0 <= c < columns@.len() ==> (#[trigger] columns@[c])@.len() == 0,
                sorted_ids(a_components@),
                forall|c: ComponentId|
                    #[trigger] a_components@.contains(c) <==> (exists|j: int|
                        0 <= j < t && c_ids@[j] == c) && o.sized(c),
                t < c_ids@.len() ==> forall|l: int|
                    0 <= l < a_components@.len() ==> (#[trigger] a_components@[l]).bits()
                        < c_ids@[t as int].bits(),
            decreases c_ids@.len() - t,
        {
            let cid = c_ids[t];
            proof {
                assert(o.valid_cid(c_ids@[t as int]));
            }
            if self.components[cid.as_index()].layout_size > 0 {
                let ghost pre = a_components@;
                a_components.push(cid);
                columns.push(LayoutVec::new());
                proof {
                    assert(a_components@ == pre.push(cid));
                    assert(o.sized(cid));
                    assert forall|c: ComponentId| #[trigger] a_components@.contains(c) <==> (exists|j: int|
                        0 <= j < t + 1 && c_ids@[j] == c) && o.sized(c) by {
                        if c == cid {
                            assert(a_components@[pre.len() as int] == c);
                            assert(c_ids@[t as int] == c);
                        } else {
                            assert(a_components@.contains(c) <==> pre.contains(c)) by {
                                if a_components@.contains(c) {
                                    let l = choose|l: int| 0 <= l < a_components@.len() && a_components@[l] == c;
                                    assert(l < pre.len());
                                    assert(pre[l] == c);
                                }
                                if pre.contains(c) {
                                    let l = choose|l: int| 0 <= l < pre.len() && pre[l] == c;
                                    assert(a_components@[l] == c);
                                }
                            }
                            if exists|j: int| 0 <= j < t + 1 && c_ids@[j] == c {
                                let j = choose|j: int| 0 <= j < t + 1 && c_ids@[j] == c;
                                assert(j != t);
                                assert(exists|j: int| 0 <= j < t && c_ids@[j] == c);
                            }
                        }
                    }
                }
            } else {
                proof {
                    assert forall|c: ComponentId| #[trigger] a_components@.contains(c) <==> (exists|j: int|
                        0 <= j < t + 1 && c_ids@[j] == c) && o.sized(c) by {
                        if (exists|j: int| 0 <= j < t + 1 && c_ids@[j] == c) && o.sized(c) {
                            let j = choose|j: int| 0 <= j < t + 1 && c_ids@[j] == c;
                            assert(j != t);
                        }
                    }
                }
            }
            proof {
                if t + 1 < c_ids@.len() {
                    assert forall|l: int| 0 <= l < a_components@.len() implies (
                    #[trigger] a_components@[l]).bits() < c_ids@[t + 1].bits() by {
                        assert(c_ids@[t as int].bits() < c_ids@[t + 1].bits());
                    }
                }
            }
            t += 1;
        }
        let new_archetype = Archetype::new(a_components, columns);
        self.archetypes.push(new_archetype);
        self.exact_archetype.push(c_ids);
        proof {
            self.lemma_created_archetype(&o, na as int);
        }
        new_aid
    }

    proof fn lemma_created_archetype(&self, o: &Self, na: int)
        requires
            o.wf(),
            na == o.archetypes@.len(),
            na < BITSET_CAPACITY,
            self.archetypes@ == o.archetypes@.push(self.archetypes@[na]),
            self.exact_archetype@ == o.exact_archetype@.push(self.exact_archetype@[na]),
            self.archetypes@[na].wf(),
            self.archetypes@[na].entities@.len() == 0,
            sorted_ids(self.key(na)),
            forall|i: int| 0 <= i < self.key(na).len() ==> o.valid_cid(#[trigger] self.key(na)[i]),
            forall|j: int| 0 <= j < na ==> #[trigger] o.key(j) != self.key(na),
            self.entities == o.entities,
            self.components@.len() == o.components@.len(),
            forall|k: int|
                0 <= k < self.components@.len() ==> (#[trigger] self.components@[k]).id
                    == o.components@[k].id && self.components@[k].layout_size
                    == o.components@[k].layout_size,
            forall|c: ComponentId|
                #[trigger] self.archetypes@[na].components@.contains(c) <==> self.key(na).contains(c)
                    && o.sized(c),
            forall|k: int, x: usize|
                0 <= k < o.components@.len() ==> (#[trigger] self.components@[k].origin_set().contains(x)
                    <==> (o.components@[k].origin_set().contains(x) || (x == na && exists|j: int|
                    0 <= j < self.key(na).len() && self.key(na)[j].spec_id() == k
                        && !self.key(na)[j].spec_is_target()))),
            forall|k: int, x: usize|
                0 <= k < o.components@.len() ==> (#[trigger] self.components@[k].target_set().contains(x)
                    <==> (o.components@[k].target_set().contains(x) || (x == na && exists|j: int|
                    0 <= j < self.key(na).len() && self.key(na)[j].spec_id() == k
                        && self.key(na)[j].spec_is_target()))),
        ensures
            self.wf(),
            self.same_components(o),
            forall|a: int|
                0 <= a < o.archetypes@.len() ==> #[trigger] self.archetypes@[a] == o.archetypes@[a]
                    && self.key(a) == o.key(a),
            forall|i: int| o.entities.slot_alive(i) ==> #[trigger] self.same_entity(o, i),
    {
        assert forall|c: ComponentId| #[trigger] self.valid_cid(c) <==> o.valid_cid(c) by {}
        assert forall|c: ComponentId| o.valid_cid(c) implies #[trigger] self.sized(c) == o.sized(c) by {}
        assert forall|a: int| 0 <= a < o.archetypes@.len() implies #[trigger] self.archetypes@[a]
            == o.archetypes@[a] && self.key(a) == o.key(a) by {
            assert(self.archetypes@[a] == o.archetypes@[a]);
            assert(self.exact_archetype@[a] == o.exact_archetype@[a]);
        }
        assert forall|a: int, c: ComponentId|
            0 <= a < self.archetypes@.len() && #[trigger] self.exact_archetype@[a]@.contains(c)
                implies self.valid_cid(c) by {
            if a == na {
                let j = choose|j: int| 0 <= j < self.key(na).len() && self.key(na)[j] == c;
                assert(o.valid_cid(self.key(na)[j]));
            } else {
                assert(o.exact_archetype@[a]@.contains(c));
            }
        }
        assert forall|a: int, c: ComponentId| 0 <= a < self.archetypes@.len() implies (
        #[trigger] self.archetypes@[a].components@.contains(c) <==> (
        self.exact_archetype@[a]@.contains(c) && self.sized(c))) by {
            if a < na {
                assert(self.archetypes@[a] == o.archetypes@[a]);
                if self.exact_archetype@[a]@.contains(c) {
                    assert(o.exact_archetype@[a]@.contains(c));
                    assert(o.valid_cid(c));
                }
                if o.archetypes@[a].components@.contains(c) {
                    assert(o.exact_archetype@[a]@.contains(c));
                    assert(o.valid_cid(c));
                }
            } else {
                if self.key(na).contains(c) {
                    let j = choose|j: int| 0 <= j < self.key(na).len() && self.key(na)[j] == c;
                    assert(o.valid_cid(self.key(na)[j]));
                }
            }
        }
        assert forall|a: int| 0 <= a < self.archetypes@.len() implies (#[trigger] self.archetypes@[a]).wf() by {
            if a < na {
                assert(self.archetypes@[a] == o.archetypes@[a]);
            }
        }
        assert forall|a: int| 0 <= a < self.archetypes@.len() implies sorted_ids(
            #[trigger] self.exact_archetype@[a]@,
        ) by {
            if a < na {
                assert(self.exact_archetype@[a] == o.exact_archetype@[a]);
            }
        }
        assert forall|a: int, b: int|
            0 <= a < self.archetypes@.len() && 0 <= b < self.archetypes@.len() && a != b implies #[trigger] self.exact_archetype@[a]@
            != #[trigger] self.exact_archetype@[b]@ by {
            if a == na {
                assert(o.key(b) != self.key(na));
            } else if b == na {
                assert(o.key(a) != self.key(na));
            } else {
                assert(o.exact_archetype@[a]@ != o.exact_archetype@[b]@);
            }
        }
        assert(self.key(0) == o.key(0));
        assert forall|a: int, r: int|
            0 <= a < self.archetypes@.len() && 0 <= r < self.archetypes@[a].entities@.len() implies {
            let i = (#[trigger] self.archetypes@[a].entities@[r]).0 as int;
            &&& i != -1
            &&& self.entities.slot_alive(i)
            &&& self.slot_arch(i) == a
            &&& self.slot_row(i) == r
        } by {
            assert(a < na);
            assert(self.archetypes@[a] == o.archetypes@[a]);
            assert(o.archetypes@[a].entities@[r] == self.archetypes@[a].entities@[r]);
        }
        assert forall|i: int| #[trigger] self.entities.slot_alive(i) && i != -1 implies {
            &&& 0 <= self.slot_arch(i) < self.archetypes@.len()
            &&& 0 <= self.slot_row(i) < self.archetypes@[self.slot_arch(i)].entities@.len()
            &&& self.archetypes@[self.slot_arch(i)].entities@[self.slot_row(i)].0 == i
        } by {
            assert(o.entities.slot_alive(i));
            assert(self.archetypes@[o.slot_arch(i)] == o.archetypes@[o.slot_arch(i)]);
        }
        assert forall|k: int, x: usize|
            0 <= k < self.components@.len() && #[trigger] self.components@[k].origin_set().contains(
                x,
            ) implies x < self.archetypes@.len() by {
            if x != na {
                assert(o.components@[k].origin_set().contains(x));
            }
        }
        assert forall|k: int, x: usize|
            0 <= k < self.components@.len() && #[trigger] self.components@[k].target_set().contains(
                x,
            ) implies x < self.archetypes@.len() by {
            if x != na {
                assert(o.components@[k].target_set().contains(x));
            }
        }
        assert forall|a: int, c: ComponentId|
            0 <= a < self.archetypes@.len() && self.valid_cid(c) implies (
            #[trigger] self.components@[c.spec_id() as int].set_for(c).contains(a as usize)
                <==> #[trigger] self.exact_archetype@[a]@.contains(c)) by {
            let k = c.spec_id() as int;
            assert(o.valid_cid(c));
            if a == na {
                let key = self.key(na);
                if key.contains(c) {
                    let j = choose|j: int| 0 <= j < key.len() && key[j] == c;
                    assert(key[j].spec_id() == k);
                }
                if c.spec_is_target() {
                    if exists|j: int| 0 <= j < key.len() && key[j].spec_id() == k && key[j].spec_is_target() {
                        let j = choose|j: int|
                            0 <= j < key.len() && key[j].spec_id() == k && key[j].spec_is_target();
                        assert(o.valid_cid(key[j]));
                        if key[j] != c {
                            o.lemma_valid_sides(key[j], c);
                        }
                        assert(key.contains(c));
                    }
                    if o.components@[k].target_set().contains(a as usize) {
                        assert(false);
                    }
                } else {
                    if exists|j: int| 0 <= j < key.len() && key[j].spec_id() == k && !key[j].spec_is_target() {
                        let j = choose|j: int|
                            0 <= j < key.len() && key[j].spec_id() == k && !key[j].spec_is_target();
                        assert(o.valid_cid(key[j]));
                        if key[j] != c {
                            o.lemma_valid_sides(key[j], c);
                        }
                        assert(key.contains(c));
                    }
                    if o.components@[k].origin_set().contains(a as usize) {
                        assert(false);
                    }
                }
            } else {
                assert(o.exact_archetype@[a] == self.exact_archetype@[a]);
                assert(o.components@[k].set_for(c).contains(a as usize) <==> o.exact_archetype@[a]@.contains(c));
            }
        }
        assert forall|i: int| o.entities.slot_alive(i) implies #[trigger] self.same_entity(o, i) by {
            assert(self.archetypes@[o.slot_arch(i)] == o.archetypes@[o.slot_arch(i)]);
            assert(self.exact_archetype@[o.slot_arch(i)] == o.exact_archetype@[o.slot_arch(i)]);
        }
    }

    /// The key of archetype `b` is the key of archetype `a` with `cid` added (`adding`)
    /// or taken out.
    pub open spec fn keys_step(&self, a: int, b: int, cid: ComponentId, adding: bool) -> bool {
        &&& adding ==> !self.key(a).contains(cid)
        &&& !adding ==> self.key(a).contains(cid)
        &&& forall|c: ComponentId|
            #[trigger] self.key(b).contains(c) <==> if adding {
                self.key(a).contains(c) || c == cid
            } else {
                self.key(a).contains(c) && c != cid
            }
    }

    /// Moves the living entity `e` from its archetype to archetype `new_aid`, whose key is its
    /// key with `cid` added or taken out. When adding, `value` goes into the column of `cid`
    /// (there is one exactly if `cid` has a size); when taking out, the value of that column,
    /// if there is one, is returned.
    fn move_entity(
        &mut self,
        e: Entity,
        new_aid: ArchetypeId,
        cid: ComponentId,
        adding: bool,
        value: Option<ComponentValue<V>>,
    ) -> (r: Option<ComponentValue<V>>)
        requires
            old(self).wf(),
            old(self).alive(e),
            e.generation.0 % 2 == 1,
            old(self).valid_cid(cid),
            new_aid.0 < old(self).archetypes@.len(),
            old(self).keys_step(old(self).slot_arch(e.id.0 as int), new_aid.0 as int, cid, adding),
            value is Some == (adding && old(self).sized(cid)),
            value matches Some(v) ==> entry_fits(cid, v),
        ensures
            final(self).wf(),
            final(self).same_tables(old(self)),
            final(self).alive(e),
            final(self).slot_arch(e.id.0 as int) == new_aid.0,
            final(self).entities.count() == old(self).entities.count(),
            final(self).entities.free_list() == old(self).entities.free_list(),
            final(self).entities.next_free_spec() == old(self).entities.next_free_spec(),
            final(self).entities.deferred_spec() == old(self).entities.deferred_spec(),
            forall|i: int|
                0 <= i < old(self).entities.count() ==> #[trigger] final(self).entities.gen_of(i)
                    == old(self).entities.gen_of(i),
            forall|i: int|
                #[trigger] final(self).entities.slot_alive(i) <==> old(self).entities.slot_alive(i),
            forall|i: int|
                old(self).entities.slot_alive(i) && i != e.id.0 ==> #[trigger] final(self).same_entity(old(self), i),
            forall|c: ComponentId|
                #[trigger] old(self).entity_key(e.id.0 as int).contains(c) && c != cid && old(self).sized(c)
                    ==> final(self).entity_value(e.id.0 as int, c) == old(self).entity_value(
                    e.id.0 as int,
                    c,
                ),
            value matches Some(v) ==> final(self).entity_value(e.id.0 as int, cid) == v,
            !adding && old(self).sized(cid) ==> r == Some(old(self).entity_value(e.id.0 as int, cid)),
            adding || !old(self).sized(cid) ==> r is None,
    {
        let ghost o = *old(self);
        let ghost id = e.id.0 as int;
        let (old_aid, old_row) = self.entities.get_archetype(e);
        proof {
            assert(self.entities.slot_alive(id));
            self.lemma_move_prepare(e, new_aid.0 as int, cid, adding);
        }
        let (old_a, new_a) = get_mut_2(self.archetypes.as_mut_slice(), old_aid.0, new_aid.0);
        let ghost a0 = *old_a;
        let ghost b0 = *new_a;
        Archetype::move_row(old_a, new_a, old_row);
        let ghost a1 = *old_a;
        let ghost b1 = *new_a;
        let mut removed: Option<ComponentValue<V>> = None;
        if !adding {
            match old_a.find_column_index(cid) {
                Some(col) => {
                    removed = Some(old_a.columns[col].take_swap(old_row.0));
                },
                None => {},
            }
        } else {
            match value {
                Some(v) => {
                    let col = new_a.find_column_index(cid).unwrap();
                    new_a.columns[col].push(v);
                },
                None => {},
            }
        }
        let new_row = (new_a.entities.len() - 1) as u32;
        let swapped = if (old_row.0 as usize) < old_a.entities.len() {
            Some(old_a.entities[old_row.0 as usize])
        } else {
            None
        };
        let ghost a2 = *old_a;
        let ghost b2 = *new_a;
        proof {
            let a = old_aid.0 as int;
            let b = new_aid.0 as int;
            let r = old_row.0 as int;
            let ca = a0.components@;
            let cb = b0.components@;
            assert(self.archetypes@ == o.archetypes@.update(a, a2).update(b, b2));
            assert(a0 == o.archetypes@[a]);
            assert(b0 == o.archetypes@[b]);
            assert(a0.entities@[r] == e.id);
            assert forall|k: int| 0 <= k < ca.len() implies (#[trigger] a2.columns@[k])@
                == swap_removed(a0.columns@[k]@, r) by {
                assert(ca.contains(ca[k]));
                lemma_sorted_index_of(ca, k);
                if !cb.contains(ca[k]) {
                    assert(ca[k] == cid);
                    assert(!adding);
                    assert(a1.columns@[k]@ == a0.columns@[k]@);
                }
                if !adding && ca.contains(cid) {
                    let col = choose|col: int| 0 <= col < ca.len() && ca[col] == cid;
                    lemma_sorted_index_of(ca, col);
                }
            }
            assert forall|l: int| 0 <= l < cb.len() implies (#[trigger] b2.columns@[l])@
                == b0.columns@[l]@.push(
                if ca.contains(cb[l]) {
                    a0.columns@[ca.index_of(cb[l])]@[r]
                } else {
                    value.unwrap()
                },
            ) by {
                lemma_sorted_index_of(cb, l);
                assert(b0.wf() && a0.wf());
                if ca.contains(cb[l]) {
                    let k = ca.index_of(cb[l]);
                    assert(ca[k] == cb[l]);
                    assert(0 <= k < a0.columns@.len());
                    assert(cb.index_of(ca[k]) == l);
                    assert(a1.columns@[k]@ == swap_removed(a0.columns@[k]@, r));
                    assert(b1.columns@[l]@ == b0.columns@[l]@.push(a0.columns@[k]@[r]));
                    assert(cb[l] != cid || !adding);
                    assert(b2.columns@[l]@ == b1.columns@[l]@);
                } else {
                    assert(cb[l] == cid);
                    assert(adding);
                    assert(value is Some);
                    assert(b1.columns@[l]@ == b0.columns@[l]@);
                }
                if adding && cb.contains(cid) {
                    let col = choose|col: int| 0 <= col < cb.len() && cb[col] == cid;
                    lemma_sorted_index_of(cb, col);
                }
            }
        }
        let ghost mid = *self;
        self.entities.set_archetype(e, new_aid, ArchetypeRow(new_row));
        let ghost m2 = self.entities;
        proof {
            let a = old_aid.0 as int;
            let r = old_row.0 as int;
            let last = a0.entities@.len() - 1;
            assert(mid.entities == o.entities);
            assert(a0.wf());
            if r < last {
                let s = a0.entities@[last].0 as int;
                assert(o.entities.slot_alive(s));
                assert(o.slot_row(s) == last);
                assert(s != id);
                assert(m2.same_slot(&o.entities, s));
                assert(a1.entities@[r] == a0.entities@[last]);
            }
        }
        match swapped {
            Some(eid) => {
                proof {
                    assert(a2.entities@ == a1.entities@);
                    assert(eid == a0.entities@[a0.entities@.len() - 1]);
                }
                self.entities.set_archetype_unchecked(eid, old_aid, old_row);
            },
            None => {},
        }
        proof {
            let a = old_aid.0 as int;
            let r = old_row.0 as int;
            let last = a0.entities@.len() - 1;
            let s = a0.entities@[last].0 as int;
            assert forall|i: int|
                0 <= i < o.entities.count() && i != id && !(r < last && i == s) implies #[trigger] self.entities.same_slot(
                &o.entities,
                i,
            ) by {
                assert(m2.same_slot(&o.entities, i));
                if r < last {
                    assert(self.entities.same_slot(&m2, i));
                }
            }
            assert forall|i: int| 0 <= i < o.entities.count() implies #[trigger] self.entities.gen_of(i)
                == o.entities.gen_of(i) by {
                if r < last && i != s {
                    assert(self.entities.same_slot(&m2, i));
                }
                if i != id {
                    assert(m2.same_slot(&o.entities, i));
                }
            }
            if r < last {
                assert(self.entities.same_slot(&m2, id));
            }
            assert(b2.entities@ == b0.entities@.push(e.id));
            assert(self.slot_arch(id) == new_aid.0 && self.slot_row(id) == b0.entities@.len());
            self.lemma_move_done(&o, e, a, new_aid.0 as int, r, cid, adding, value);
        }
        removed
    }

    /// After the row of `e` moved from archetype `a` to archetype `b`, everything is in place.
    #[verifier::spinoff_prover]
    #[verifier::rlimit(60)]
    proof fn lemma_move_done(
        &self,
        o: &Self,
        e: Entity,
        a: int,
        b: int,
        r: int,
        cid: ComponentId,
        adding: bool,
        value: Option<ComponentValue<V>>,
    )
        requires
            o.wf(),
            o.entities.slot_alive(e.id.0 as int),
            a == o.slot_arch(e.id.0 as int),
            r == o.slot_row(e.id.0 as int),
            0 <= b < o.archetypes@.len(),
            a != b,
            o.valid_cid(cid),
            o.keys_step(a, b, cid, adding),
            value is Some == (adding && o.sized(cid)),
            value matches Some(v) ==> entry_fits(cid, v),
            self.components == o.components,
            self.exact_archetype == o.exact_archetype,
            self.archetypes@.len() == o.archetypes@.len(),
            forall|x: int|
                0 <= x < o.archetypes@.len() && x != a && x != b ==> #[trigger] self.archetypes@[x]
                    == o.archetypes@[x],
            self.archetypes@[a].components@ == o.archetypes@[a].components@,
            self.archetypes@[a].columns@.len() == o.archetypes@[a].columns@.len(),
            self.archetypes@[a].entities@ == swap_removed(o.archetypes@[a].entities@, r),
            forall|k: int|
                0 <= k < o.archetypes@[a].columns@.len() ==> (
                #[trigger] self.archetypes@[a].columns@[k])@ == swap_removed(
                    o.archetypes@[a].columns@[k]@,
                    r,
                ),
            self.archetypes@[b].components@ == o.archetypes@[b].components@,
            self.archetypes@[b].columns@.len() == o.archetypes@[b].columns@.len(),
            self.archetypes@[b].entities@ == o.archetypes@[b].entities@.push(e.id),
            forall|l: int|
                0 <= l < o.archetypes@[b].columns@.len() ==> (
                #[trigger] self.archetypes@[b].columns@[l])@ == o.archetypes@[b].columns@[l]@.push(
                    if o.archetypes@[a].components@.contains(o.archetypes@[b].components@[l]) {
                        o.archetypes@[a].columns@[o.archetypes@[a].components@.index_of(
                            o.archetypes@[b].components@[l],
                        )]@[r]
                    } else {
                        value.unwrap()
                    },
                ),
            self.entities.wf(),
            self.entities.count() == o.entities.count(),
            forall|i: int|
                0 <= i < o.entities.count() ==> #[trigger] self.entities.gen_of(i)
                    == o.entities.gen_of(i),
            self.slot_arch(e.id.0 as int) == b,
            self.slot_row(e.id.0 as int) == o.archetypes@[b].entities@.len(),
            r < o.archetypes@[a].entities@.len() - 1 ==> ({
                let s = o.archetypes@[a].entities@.last().0 as int;
                &&& self.slot_arch(s) == a
                &&& self.slot_row(s) == r
            }),
            forall|i: int|
                0 <= i < o.entities.count() && i != e.id.0 && !(r < o.archetypes@[a].entities@.len()
                    - 1 && i == o.archetypes@[a].entities@.last().0) ==> #[trigger] self.entities.same_slot(
                    &o.entities,
                    i,
                ),
        ensures
            self.wf(),
            forall|i: int|
                #[trigger] self.entities.slot_alive(i) <==> o.entities.slot_alive(i),
            forall|i: int|
                o.entities.slot_alive(i) && i != e.id.0 ==> #[trigger] self.same_entity(o, i),
            forall|c: ComponentId|
                #[trigger] o.entity_key(e.id.0 as int).contains(c) && c != cid && o.sized(c)
                    ==> self.entity_value(e.id.0 as int, c) == o.entity_value(e.id.0 as int, c),
            value matches Some(v) ==> self.entity_value(e.id.0 as int, cid) == v,
    {
        let id = e.id.0 as int;
        let A = o.archetypes@[a];
        let B = o.archetypes@[b];
        let A2 = self.archetypes@[a];
        let B2 = self.archetypes@[b];
        let la = A.entities@.len();
        let lb = B.entities@.len();
        let last = la - 1;
        let s = A.entities@[last].0 as int;
        o.lemma_move_prepare(e, b, cid, adding);
        assert(A.wf() && B.wf());
        assert(A.entities@[r].0 == id);
        assert(forall|i: int| 0 <= i < self.entities.count() ==> (#[trigger] self.entities.slot_alive(i) <==> o.entities.slot_alive(i)));
        assert forall|i: int| #[trigger] self.entities.slot_alive(i) <==> o.entities.slot_alive(i) by {
            if 0 <= i < o.entities.count() {
                assert(self.entities.gen_of(i) == o.entities.gen_of(i));
            }
        }
        // the moved-into-the-hole entity
        if r < last {
            assert(o.entities.slot_alive(s));
            assert(o.slot_arch(s) == a && o.slot_row(s) == last);
        }
        // archetypes stay well formed
        assert(A2.wf()) by {
            assert forall|c: int| 0 <= c < A2.columns@.len() implies (#[trigger] A2.columns@[c])@.len()
                == A2.entities@.len() by {
                assert(A.columns@[c]@.len() == la);
            }
            assert forall|c: int, q: int|
                0 <= c < A2.columns@.len() && 0 <= q < A2.entities@.len() implies entry_fits(
                A2.components@[c],
                #[trigger] A2.columns@[c]@[q],
            ) by {
                assert(A.columns@[c]@.len() == la);
                if q == r {
                    assert(entry_fits(A.components@[c], A.columns@[c]@[last]));
                } else {
                    assert(entry_fits(A.components@[c], A.columns@[c]@[q]));
                }
            }
        }
        assert(B2.wf()) by {
            assert forall|c: int| 0 <= c < B2.columns@.len() implies (#[trigger] B2.columns@[c])@.len()
                == B2.entities@.len() by {
                assert(B.columns@[c]@.len() == lb);
            }
            assert forall|c: int, q: int|
                0 <= c < B2.columns@.len() && 0 <= q < B2.entities@.len() implies entry_fits(
                B2.components@[c],
                #[trigger] B2.columns@[c]@[q],
            ) by {
                assert(B.columns@[c]@.len() == lb);
                if q < lb {
                    assert(entry_fits(B.components@[c], B.columns@[c]@[q]));
                } else {
                    let bc = B.components@[c];
                    if A.components@.contains(bc) {
                        let k = A.components@.index_of(bc);
                        assert(A.components@[k] == bc);
                        assert(A.columns@[k]@.len() == la);
                        assert(entry_fits(A.components@[k], A.columns@[k]@[r]));
                    } else {
                        assert(B.components@.contains(bc));
                        assert(bc == cid);
                        assert(o.exact_archetype@[b]@.contains(bc) && o.sized(bc));
                    }
                }
            }
        }
        assert forall|x: int| 0 <= x < self.archetypes@.len() implies (#[trigger] self.archetypes@[x]).wf() by {
            if x != a && x != b {
                assert(self.archetypes@[x] == o.archetypes@[x]);
            }
        }
        assert forall|x: int, c: ComponentId|
            0 <= x < self.archetypes@.len() implies (#[trigger] self.archetypes@[x].components@.contains(
            c,
        ) <==> (self.exact_archetype@[x]@.contains(c) && self.sized(c))) by {
            assert(self.archetypes@[x].components@ == o.archetypes@[x].components@);
            assert(o.archetypes@[x].components@.contains(c) <==> (o.exact_archetype@[x]@.contains(c)
                && o.sized(c)));
        }
        assert(self.wf_archetypes());
        // rows point to living slots that point back
        assert forall|x: int, q: int|
            0 <= x < self.archetypes@.len() && 0 <= q < self.archetypes@[x].entities@.len() implies {
            let i = (#[trigger] self.archetypes@[x].entities@[q]).0 as int;
            &&& i != -1
            &&& self.entities.slot_alive(i)
            &&& self.slot_arch(i) == x
            &&& self.slot_row(i) == q
        } by {
            let i = self.archetypes@[x].entities@[q].0 as int;
            if x == b {
                if q == lb {
                    assert(i == id);
                } else {
                    assert(i == B.entities@[q].0);
                    assert(o.slot_arch(i) == b && o.slot_row(i) == q);
                    assert(i != id);
                    assert(self.entities.same_slot(&o.entities, i));
                }
            } else if x == a {
                if q == r {
                    assert(i == s);
                    assert(r < last);
                } else {
                    assert(i == A.entities@[q].0);
                    assert(o.slot_arch(i) == a && o.slot_row(i) == q);
                    assert(i != id);
                    if r < last {
                        assert(o.slot_row(s) == last);
                        assert(i != s);
                    }
                    assert(self.entities.same_slot(&o.entities, i));
                }
            } else {
                assert(self.archetypes@[x] == o.archetypes@[x]);
                assert(o.slot_arch(i) == x && o.slot_row(i) == q);
                assert(i != id);
                if r < last {
                    assert(o.slot_arch(s) == a);
                    assert(i != s);
                }
                assert(self.entities.same_slot(&o.entities, i));
            }
        }
        assert forall|i: int| #[trigger] self.entities.slot_alive(i) && i != -1 implies {
            &&& 0 <= self.slot_arch(i) < self.archetypes@.len()
            &&& 0 <= self.slot_row(i) < self.archetypes@[self.slot_arch(i)].entities@.len()
            &&& self.archetypes@[self.slot_arch(i)].entities@[self.slot_row(i)].0 == i
        } by {
            assert(o.entities.slot_alive(i));
            if i == id {
            } else if r < last && i == s {
                assert(A2.entities@[r] == A.entities@[last]);
            } else {
                assert(self.entities.same_slot(&o.entities, i));
                let x = o.slot_arch(i);
                let q = o.slot_row(i);
                if x == a {
                    assert(q != r);
                    assert(q != last);
                    assert(A2.entities@[q] == A.entities@[q]);
                } else if x == b {
                    assert(B2.entities@[q] == B.entities@[q]);
                } else {
                    assert(self.archetypes@[x] == o.archetypes@[x]);
                }
            }
        }
        assert(self.wf_locations());
        assert(self.wf_sets()) by {
            assert forall|a1: int, c: ComponentId|
                0 <= a1 < self.archetypes@.len() && self.valid_cid(c) implies (
                #[trigger] self.components@[c.spec_id() as int].set_for(c).contains(a1 as usize)
                    <==> #[trigger] self.exact_archetype@[a1]@.contains(c)) by {
                assert(o.valid_cid(c));
            }
        }
        // other entities keep their components and values
        assert forall|i: int| o.entities.slot_alive(i) && i != id implies #[trigger] self.same_entity(o, i) by {
            let x = o.slot_arch(i);
            let q = o.slot_row(i);
            if r < last && i == s {
                assert forall|c: ComponentId| #[trigger] o.entity_key(i).contains(c) && o.sized(c) implies self.entity_value(
                    i,
                    c,
                ) == o.entity_value(i, c) by {
                    assert(o.valid_cid(c));
                    assert(A.components@.contains(c));
                    let k = A.components@.index_of(c);
                    assert(A.columns@[k]@.len() == la);
                }
            } else {
                assert(self.entities.same_slot(&o.entities, i));
                assert forall|c: ComponentId| #[trigger] o.entity_key(i).contains(c) && o.sized(c) implies self.entity_value(
                    i,
                    c,
                ) == o.entity_value(i, c) by {
                    assert(o.valid_cid(c));
                    let X = o.archetypes@[x];
                    assert(X.wf());
                    assert(X.components@.contains(c));
                    let k = X.components@.index_of(c);
                    assert(X.columns@[k]@.len() == X.entities@.len());
                    if x == a {
                        assert(q != r && q != last);
                    }
                }
            }
        }
        // the moved entity keeps its values
        assert forall|c: ComponentId| #[trigger] o.entity_key(id).contains(c) && c != cid && o.sized(c) implies self.entity_value(
            id,
            c,
        ) == o.entity_value(id, c) by {
            assert(o.valid_cid(c));
            assert(A.components@.contains(c));
            assert(B.components@.contains(c));
            let l = B.components@.index_of(c);
            let k = A.components@.index_of(c);
            assert(B.components@[l] == c);
            assert(A.components@[k] == c);
            assert(B.columns@[l]@.len() == lb);
        }
        if value is Some {
            assert(B.components@.contains(cid));
            let l = B.components@.index_of(cid);
            assert(B.components@[l] == cid);
            assert(!A.components@.contains(cid));
            assert(B.columns@[l]@.len() == lb);
        }
    }

    /// What `move_entity` needs to know before it moves.
    proof fn lemma_move_prepare(&self, e: Entity, b: int, cid: ComponentId, adding: bool)
        requires
            self.wf(),
            self.entities.slot_alive(e.id.0 as int),
            0 <= b < self.archetypes@.len(),
            self.valid_cid(cid),
            self.keys_step(self.slot_arch(e.id.0 as int), b, cid, adding),
        ensures
            ({
                let a = self.slot_arch(e.id.0 as int);
                let ac = self.archetypes@[a].components@;
                let bc = self.archetypes@[b].components@;
                &&& a != b
                &&& differ_by_at_most_one(ac, bc)
                &&& self.archetypes@[b].entities@.len() + 1 <= self.entities.count()
                &&& self.entities.count() <= u32::MAX
                &&& !self.sized(cid) ==> ac == bc
                &&& self.sized(cid) && adding ==> bc.contains(cid) && !ac.contains(cid) && ac
                    == bc.remove(bc.index_of(cid))
                &&& self.sized(cid) && !adding ==> ac.contains(cid) && !bc.contains(cid) && bc
                    == ac.remove(ac.index_of(cid))
                &&& forall|c: ComponentId| #[trigger] ac.contains(c) && c != cid ==> bc.contains(c)
                &&& forall|c: ComponentId| #[trigger] bc.contains(c) && c != cid ==> ac.contains(c)
                &&& adding ==> !ac.contains(cid)
                &&& !adding ==> !bc.contains(cid)
                &&& bc.contains(cid) ==> self.sized(cid)
                &&& ac.contains(cid) ==> self.sized(cid)
            }),
    {
        let id = e.id.0 as int;
        let a = self.slot_arch(id);
        let ac = self.archetypes@[a].components@;
        let bc = self.archetypes@[b].components@;
        assert(self.archetypes@[a].wf());
        assert(self.archetypes@[b].wf());
        if a == b {
            assert(self.key(a).contains(cid) != self.key(b).contains(cid));
        }
        assert forall|c: ComponentId| #[trigger] ac.contains(c) && c != cid implies bc.contains(c) by {
            assert(self.key(a).contains(c));
            assert(self.exact_archetype@[a]@.contains(c));
            assert(self.key(b).contains(c));
            assert(self.exact_archetype@[b]@.contains(c));
        }
        assert forall|c: ComponentId| #[trigger] bc.contains(c) && c != cid implies ac.contains(c) by {
            assert(self.key(b).contains(c));
            assert(self.exact_archetype@[b]@.contains(c));
            assert(self.key(a).contains(c));
            assert(self.exact_archetype@[a]@.contains(c));
        }
        if ac.contains(cid) {
            assert(self.exact_archetype@[a]@.contains(cid));
        }
        if bc.contains(cid) {
            assert(self.exact_archetype@[b]@.contains(cid));
        }
        if !self.sized(cid) {
            assert forall|c: ComponentId| ac.contains(c) <==> bc.contains(c) by {
                if ac.contains(c) {
                    assert(self.key(a).contains(c));
            assert(self.exact_archetype@[a]@.contains(c));
                    assert(c != cid);
                }
                if bc.contains(c) {
                    assert(self.key(b).contains(c));
            assert(self.exact_archetype@[b]@.contains(c));
                    assert(c != cid);
                }
            }
            lemma_sorted_eq(ac, bc);
        } else if adding {
            assert(!ac.contains(cid)) by {
                if ac.contains(cid) {
                    assert(self.key(a).contains(cid));
                }
            }
            assert forall|c: ComponentId| bc.contains(c) <==> (ac.contains(c) || c == cid) by {
                if bc.contains(c) {
                    assert(self.key(b).contains(c));
            assert(self.exact_archetype@[b]@.contains(c));
                    if c != cid {
                        assert(self.key(a).contains(c));
            assert(self.exact_archetype@[a]@.contains(c));
                    }
                }
                if c == cid {
                    assert(self.key(b).contains(c));
            assert(self.exact_archetype@[b]@.contains(c));
                }
            }
            lemma_sorted_remove(bc, ac, cid);
        } else {
            assert(!bc.contains(cid)) by {
                if bc.contains(cid) {
                    assert(self.key(b).contains(cid));
                }
            }
            assert forall|c: ComponentId| ac.contains(c) <==> (bc.contains(c) || c == cid) by {
                if ac.contains(c) {
                    assert(self.key(a).contains(c));
            assert(self.exact_archetype@[a]@.contains(c));
                    if c != cid {
                        assert(self.key(b).contains(c));
            assert(self.exact_archetype@[b]@.contains(c));
                    }
                }
                if c == cid {
                    assert(self.key(a).contains(c));
            assert(self.exact_archetype@[a]@.contains(c));
                }
            }
            lemma_sorted_remove(ac, bc, cid);
            assert(differ_by_at_most_one(ac, bc)) by {
                let p = ac.index_of(cid);
                assert(0 <= p < ac.len() && bc == ac.remove(p));
            }
        }
        // the rows of `b` hold living slots other than `e`'s
        let ents = self.archetypes@[b].entities@;
        let s = ents.map_values(|x: EntityId| x.0 as int).push(id);
        assert forall|i: int| 0 <= i < s.len() implies 0 <= #[trigger] s[i] < self.entities.count() by {
            if i < ents.len() {
                assert(self.entities.slot_alive(ents[i].0 as int));
            }
        }
        assert forall|i: int, j: int| 0 <= i < j < s.len() implies #[trigger] s[i] != #[trigger] s[j] by {
            assert(self.slot_row(ents[i].0 as int) == i);
            if j < ents.len() {
                assert(self.slot_row(ents[j].0 as int) == j);
            } else {
                assert(self.slot_arch(ents[i].0 as int) == b);
            }
        }
        lemma_injective_len(s, self.entities.count() as int);
        self.entities.lemma_free_list();
    }
}

impl<V> Bookkeeping<V> {
    /// Everything but the components of slot `x` is as in `old`: the component types, the keys
    /// of the archetypes that existed, the entity store's slots and lists, and every other
    /// living entity with its components and values. Archetypes may have been added.
    pub open spec fn same_except(&self, old: &Self, x: int) -> bool {
        &&& self.same_components(old)
        &&& old.archetypes@.len() <= self.archetypes@.len()
        &&& forall|a: int| 0 <= a < old.archetypes@.len() ==> #[trigger] self.key(a) == old.key(a)
        &&& self.entities.count() == old.entities.count()
        &&& self.entities.free_list() == old.entities.free_list()
        &&& self.entities.next_free_spec() == old.entities.next_free_spec()
        &&& self.entities.deferred_spec() == old.entities.deferred_spec()
        &&& forall|i: int|
            0 <= i < old.entities.count() ==> #[trigger] self.entities.gen_of(i)
                == old.entities.gen_of(i)
        &&& forall|i: int| #[trigger] self.entities.slot_alive(i) <==> old.entities.slot_alive(i)
        &&& forall|i: int| old.entities.slot_alive(i) && i != x ==> #[trigger] self.same_entity(old, i)
    }

    /// `same_except` composes.
    pub(crate) proof fn lemma_same_except_trans(c: &Self, b: &Self, a: &Self, x: int)
        requires
            a.wf(),
            b.same_except(a, x),
            c.same_except(b, x),
        ensures
            c.same_except(a, x),
    {
        assert forall|k: int| 0 <= k < c.components@.len() implies (#[trigger] c.components@[k]).id
            == a.components@[k].id && c.components@[k].layout_size == a.components@[k].layout_size by {
            assert(b.components@[k].id == a.components@[k].id);
        }
        assert forall|aa: int| 0 <= aa < a.archetypes@.len() implies #[trigger] c.key(aa) == a.key(aa) by {
            assert(b.key(aa) == a.key(aa));
        }
        assert forall|i: int| a.entities.slot_alive(i) && i != x implies #[trigger] c.same_entity(a, i) by {
            assert(b.same_entity(a, i));
            assert(c.same_entity(b, i));
            Self::lemma_same_entity_trans(c, b, a, i);
        }
    }

    /// Adds the component `cid`, which the living entity `e` does not have yet, moving `e` to
    /// the archetype of its new component set. `value` is the value for the component's column:
    /// there is one exactly when the component has a size.
    /// The archetype sets must have room for one more archetype.
    pub fn add_component(&mut self, e: Entity, cid: ComponentId, value: Option<ComponentValue<V>>)
        requires
            old(self).wf(),
            old(self).alive(e),
            e.generation.0 % 2 == 1,
            old(self).valid_cid(cid),
            !old(self).entity_key(e.id.0 as int).contains(cid),
            value is Some == old(self).sized(cid),
            value matches Some(v) ==> entry_fits(cid, v),
            old(self).archetypes@.len() < BITSET_CAPACITY,
        ensures
            final(self).wf(),
            final(self).alive(e),
            final(self).archetypes@.len() <= old(self).archetypes@.len() + 1,
            final(self).same_except(old(self), e.id.0 as int),
            forall|c: ComponentId|
                #[trigger] final(self).entity_key(e.id.0 as int).contains(c) <==> (old(self).entity_key(
                    e.id.0 as int,
                ).contains(c) || c == cid),
            forall|c: ComponentId|
                #[trigger] old(self).entity_key(e.id.0 as int).contains(c) && old(self).sized(c)
                    ==> final(self).entity_value(e.id.0 as int, c) == old(self).entity_value(
                    e.id.0 as int,
                    c,
                ),
            value matches Some(v) ==> final(self).entity_value(e.id.0 as int, cid) == v,
    {
        let ghost id = e.id.0 as int;
        let (old_aid, _old_row) = self.entities.get_archetype(e);
        proof {
            assert(self.entities.slot_alive(id));
        }
        let mut components = copy_ids(&self.exact_archetype[old_aid.0 as usize]);
        insert_sorted(&mut components, cid);
        proof {
            assert forall|i: int| 0 <= i < components@.len() implies self.valid_cid(
                #[trigger] components@[i],
            ) by {
                assert(components@.contains(components@[i]));
                if components@[i] != cid {
                    assert(self.exact_archetype@[old_aid.0 as int]@.contains(components@[i]));
                }
            }
        }
        let ghost key = components@;
        let new_aid = self.find_archetype_or_create(components);
        let ghost mid = *self;
        proof {
            let o = old(self);
            assert(mid.entities.slot_alive(id));
            assert(mid.same_entity(o, id));
            assert(mid.slot_arch(id) == o.slot_arch(id));
            assert(mid.key(old_aid.0 as int) == o.key(old_aid.0 as int));
            assert forall|c: ComponentId| #[trigger] mid.key(new_aid.0 as int).contains(c) <==> (mid.key(
                old_aid.0 as int,
            ).contains(c) || c == cid) by {
                assert(mid.key(new_aid.0 as int) == key);
            }
            assert(o.valid_cid(cid));
            assert(mid.sized(cid) == o.sized(cid));
        }
        self.move_entity(e, new_aid, cid, true, value);
        proof {
            let o = old(self);
            assert(mid.same_except(o, id)) by {
                assert forall|a: int| 0 <= a < o.archetypes@.len() implies #[trigger] mid.key(a) == o.key(a) by {
                    assert(mid.archetypes@[a] == o.archetypes@[a]);
                }
            }
            assert(self.same_except(&mid, id)) by {
                assert forall|a: int| 0 <= a < mid.archetypes@.len() implies #[trigger] self.key(a) == mid.key(a) by {}
            }
            Self::lemma_same_except_trans(self, &mid, o, id);
            assert forall|c: ComponentId|
                #[trigger] o.entity_key(id).contains(c) && o.sized(c) implies self.entity_value(id, c)
                    == o.entity_value(id, c) by {
                assert(mid.entity_key(id).contains(c));
                assert(o.valid_cid(c));
                assert(mid.sized(c));
                assert(c != cid);
            }
        }
    }
}

impl<V> Bookkeeping<V> {
    /// Puts `value` in place of the value of the component `cid` of the living entity `e`;
    /// hands back the old value.
    pub(crate) fn replace_component(&mut self, e: Entity, cid: ComponentId, value: ComponentValue<V>) -> (r:
        ComponentValue<V>)
        requires
            old(self).wf(),
            old(self).alive(e),
            e.generation.0 % 2 == 1,
            old(self).entity_key(e.id.0 as int).contains(cid),
            old(self).sized(cid),
            entry_fits(cid, value),
        ensures
            final(self).wf(),
            final(self).alive(e),
            final(self).same_except(old(self), e.id.0 as int),
            final(self).archetypes@.len() == old(self).archetypes@.len(),
            final(self).entity_key(e.id.0 as int) == old(self).entity_key(e.id.0 as int),
            final(self).entity_value(e.id.0 as int, cid) == value,
            forall|c: ComponentId|
                #[trigger] old(self).entity_key(e.id.0 as int).contains(c) && old(self).sized(c) && c
                    != cid ==> final(self).entity_value(e.id.0 as int, c) == old(self).entity_value(
                    e.id.0 as int,
                    c,
                ),
            r == old(self).entity_value(e.id.0 as int, cid),
    {
        let ghost id = e.id.0 as int;
        let (aid, row) = self.entities.get_archetype(e);
        proof {
            assert(self.entities.slot_alive(id));
            self.lemma_entry(id, cid);
        }
        let r = self.archetypes[aid.0 as usize].replace_entry(cid, row, value);
        proof {
            let o = old(self);
            let a = aid.0 as int;
            let A = o.archetypes@[a];
            let A2 = self.archetypes@[a];
            let k = A.components@.index_of(cid);
            assert(self.archetypes@ == o.archetypes@.update(a, A2));
            assert forall|x: int| 0 <= x < self.archetypes@.len() implies (#[trigger] self.archetypes@[x]).wf() by {
                if x != a {
                    assert(self.archetypes@[x] == o.archetypes@[x]);
                }
            }
            assert forall|x: int, c: ComponentId|
                0 <= x < self.archetypes@.len() implies (#[trigger] self.archetypes@[x].components@.contains(
                c,
            ) <==> (self.exact_archetype@[x]@.contains(c) && self.sized(c))) by {
                assert(self.archetypes@[x].components@ == o.archetypes@[x].components@);
            }
            assert(self.wf_archetypes());
            assert forall|x: int, q: int|
                0 <= x < self.archetypes@.len() && 0 <= q < self.archetypes@[x].entities@.len() implies {
                let i = (#[trigger] self.archetypes@[x].entities@[q]).0 as int;
                &&& i != -1
                &&& self.entities.slot_alive(i)
                &&& self.slot_arch(i) == x
                &&& self.slot_row(i) == q
            } by {
                assert(self.archetypes@[x].entities@ == o.archetypes@[x].entities@);
            }
            assert forall|i: int| #[trigger] self.entities.slot_alive(i) && i != -1 implies {
                &&& 0 <= self.slot_arch(i) < self.archetypes@.len()
                &&& 0 <= self.slot_row(i) < self.archetypes@[self.slot_arch(i)].entities@.len()
                &&& self.archetypes@[self.slot_arch(i)].entities@[self.slot_row(i)].0 == i
            } by {
                assert(self.archetypes@[o.slot_arch(i)].entities@ == o.archetypes@[o.slot_arch(
                    i,
                )].entities@);
            }
            assert(self.wf_locations());
            assert forall|i: int, c: ComponentId|
                #[trigger] o.entity_key(i).contains(c) && o.sized(c) && o.entities.slot_alive(i) && !(i
                    == id && c == cid) implies self.entity_value(i, c) == o.entity_value(i, c) by {
                assert(o.valid_cid(c));
                let x = o.slot_arch(i);
                let X = o.archetypes@[x];
                assert(X.wf());
                assert(X.components@.contains(c));
                let j = X.components@.index_of(c);
                assert(X.components@[j] == c);
                if x == a {
                    if j == k {
                        lemma_sorted_index_of(X.components@, j);
                        assert(c == cid);
                        assert(i != id);
                        assert(o.slot_row(i) != row.0);
                    }
                }
            }
            assert forall|i: int| o.entities.slot_alive(i) && i != id implies #[trigger] self.same_entity(o, i) by {
                assert forall|c: ComponentId| #[trigger] o.entity_key(i).contains(c) && o.sized(c) implies self.entity_value(
                    i,
                    c,
                ) == o.entity_value(i, c) by {
                    assert(o.entity_key(i).contains(c) && o.sized(c) && o.entities.slot_alive(i));
                }
            }
            assert forall|c: ComponentId|
                #[trigger] o.entity_key(id).contains(c) && o.sized(c) && c != cid implies self.entity_value(
                id,
                c,
            ) == o.entity_value(id, c) by {
                assert(o.entity_key(id).contains(c) && o.sized(c) && o.entities.slot_alive(id));
            }
        }
        r
    }

    /// Gives the living entity `e` the component `cid` with `value`: adds it when `e` does
    /// not have it yet, otherwise puts `value` in place of the old value and hands that back.
    /// `value` is `None` exactly for components without size.
    pub fn ensure_component(&mut self, e: Entity, cid: ComponentId, value: Option<ComponentValue<V>>) -> (r:
        Option<ComponentValue<V>>)
        requires
            old(self).wf(),
            old(self).alive(e),
            e.generation.0 % 2 == 1,
            old(self).valid_cid(cid),
            value is Some == old(self).sized(cid),
            value matches Some(v) ==> entry_fits(cid, v),
            old(self).archetypes@.len() < BITSET_CAPACITY,
        ensures
            final(self).wf(),
            final(self).alive(e),
            final(self).archetypes@.len() <= old(self).archetypes@.len() + 1,
            final(self).same_except(old(self), e.id.0 as int),
            forall|c: ComponentId|
                #[trigger] final(self).entity_key(e.id.0 as int).contains(c) <==> (old(self).entity_key(
                    e.id.0 as int,
                ).contains(c) || c == cid),
            forall|c: ComponentId|
                #[trigger] old(self).entity_key(e.id.0 as int).contains(c) && old(self).sized(c) && c
                    != cid ==> final(self).entity_value(e.id.0 as int, c) == old(self).entity_value(
                    e.id.0 as int,
                    c,
                ),
            value matches Some(v) ==> final(self).entity_value(e.id.0 as int, cid) == v,
            r == (if old(self).entity_key(e.id.0 as int).contains(cid) && old(self).sized(cid) {
                Some(old(self).entity_value(e.id.0 as int, cid))
            } else {
                None::<ComponentValue<V>>
            }),
            old(self).relations_consistent() && !cid.spec_is_relation() ==> final(self).relations_consistent(),
    {
        proof {
            assert(old(self).entities.slot_alive(e.id.0 as int));
        }
        if self.has_component(e, cid) {
            match value {
                Some(v) => {
                    let r = self.replace_component(e, cid, v);
                    proof {
                        if old(self).relations_consistent() && !cid.spec_is_relation() {
                            Self::lemma_component_step_consistent(self, old(self), e.id.0 as int, cid);
                        }
                    }
                    Some(r)
                },
                None => {
                    proof {
                        assert(self.same_except(old(self), e.id.0 as int)) by {
                            assert forall|i: int| old(self).entities.slot_alive(i) implies #[trigger] self.same_entity(old(self), i) by {}
                        }
                    }
                    None
                },
            }
        } else {
            self.add_component(e, cid, value);
            proof {
                if old(self).relations_consistent() && !cid.spec_is_relation() {
                    Self::lemma_component_step_consistent(self, old(self), e.id.0 as int, cid);
                }
            }
            None
        }
    }

    /// Takes the component `cid` from the living entity `e`, moving `e` to the archetype of its
    /// remaining component set, and hands back its value (for components with a size).
    /// Does nothing and gives `None` when `e` does not have the component.
    /// The archetype sets must have room for one more archetype.
    pub fn remove_component(&mut self, e: Entity, cid: ComponentId) -> (r: Option<ComponentValue<V>>)
        requires
            old(self).wf(),
            old(self).alive(e),
            e.generation.0 % 2 == 1,
            old(self).valid_cid(cid),
            old(self).archetypes@.len() < BITSET_CAPACITY,
        ensures
            final(self).wf(),
            final(self).alive(e),
            final(self).archetypes@.len() <= old(self).archetypes@.len() + 1,
            final(self).same_except(old(self), e.id.0 as int),
            forall|c: ComponentId|
                #[trigger] final(self).entity_key(e.id.0 as int).contains(c) <==> (old(self).entity_key(
                    e.id.0 as int,
                ).contains(c) && c != cid),
            forall|c: ComponentId|
                #[trigger] old(self).entity_key(e.id.0 as int).contains(c) && old(self).sized(c) && c
                    != cid ==> final(self).entity_value(e.id.0 as int, c) == old(self).entity_value(
                    e.id.0 as int,
                    c,
                ),
            r == (if old(self).entity_key(e.id.0 as int).contains(cid) && old(self).sized(cid) {
                Some(old(self).entity_value(e.id.0 as int, cid))
            } else {
                None::<ComponentValue<V>>
            }),
            !old(self).entity_key(e.id.0 as int).contains(cid) ==> *final(self) == *old(self),
            old(self).relations_consistent() && !cid.spec_is_relation() ==> final(self).relations_consistent(),
    {
        let ghost id = e.id.0 as int;
        if !self.has_component(e, cid) {
            proof {
                assert(self.same_except(old(self), id)) by {
                    assert forall|i: int| old(self).entities.slot_alive(i) implies #[trigger] self.same_entity(old(self), i) by {}
                }
                assert forall|c: ComponentId| #[trigger] self.entity_key(id).contains(c) <==> (old(self).entity_key(
                    id).contains(c) && c != cid) by {}
            }
            return None;
        }
        let (old_aid, _old_row) = self.entities.get_archetype(e);
        proof {
            assert(self.entities.slot_alive(id));
        }
        let mut components = copy_ids(&self.exact_archetype[old_aid.0 as usize]);
        remove_id(&mut components, cid);
        proof {
            assert forall|i: int| 0 <= i < components@.len() implies self.valid_cid(
                #[trigger] components@[i],
            ) by {
                assert(components@.contains(components@[i]));
                assert(self.exact_archetype@[old_aid.0 as int]@.contains(components@[i]));
            }
        }
        let ghost key = components@;
        let new_aid = self.find_archetype_or_create(components);
        let ghost mid = *self;
        proof {
            let o = old(self);
            assert(mid.entities.slot_alive(id));
            assert(mid.same_entity(o, id));
            assert(mid.key(old_aid.0 as int) == o.key(old_aid.0 as int));
            assert forall|c: ComponentId| #[trigger] mid.key(new_aid.0 as int).contains(c) <==> (mid.key(
                old_aid.0 as int,
            ).contains(c) && c != cid) by {
                assert(mid.key(new_aid.0 as int) == key);
            }
            assert(o.valid_cid(cid));
            assert(mid.sized(cid) == o.sized(cid));
        }
        let r = self.move_entity(e, new_aid, cid, false, None);
        proof {
            let o = old(self);
            assert(mid.same_except(o, id)) by {
                assert forall|a: int| 0 <= a < o.archetypes@.len() implies #[trigger] mid.key(a) == o.key(a) by {
                    assert(mid.archetypes@[a] == o.archetypes@[a]);
                }
            }
            assert(self.same_except(&mid, id)) by {
                assert forall|a: int| 0 <= a < mid.archetypes@.len() implies #[trigger] self.key(a) == mid.key(a) by {}
            }
            Self::lemma_same_except_trans(self, &mid, o, id);
            assert forall|c: ComponentId|
                #[trigger] o.entity_key(id).contains(c) && o.sized(c) && c != cid implies self.entity_value(id, c)
                    == o.entity_value(id, c) by {
                assert(mid.entity_key(id).contains(c));
                assert(o.valid_cid(c));
                assert(mid.sized(c));
            }
            if o.sized(cid) {
                assert(mid.entity_value(id, cid) == o.entity_value(id, cid)) by {
                    assert(mid.same_entity(o, id));
                }
            }
            if o.relations_consistent() && !cid.spec_is_relation() {
                assert(o.entities.slot_alive(id));
                Self::lemma_component_step_consistent(self, o, id, cid);
            }
        }
        r
    }
}

impl<V> Bookkeeping<V> {
    /// The archetype `a` has every component of `with` and none of `without`.
    pub open spec fn matches(&self, a: int, with: Seq<ComponentId>, without: Seq<ComponentId>) -> bool {
        &&& forall|k: int| 0 <= k < with.len() ==> self.key(a).contains(#[trigger] with[k])
        &&& forall|k: int| 0 <= k < without.len() ==> !self.key(a).contains(#[trigger] without[k])
    }

    /// The bitsets that track the given components.
    fn bitsets_of(&self, cids: &[ComponentId]) -> (r: Vec<&ArchetypeBitSet>)
        requires
            self.wf(),
            forall|k: int| 0 <= k < cids@.len() ==> self.valid_cid(#[trigger] cids@[k]),
        ensures
            r@.len() == cids@.len(),
            forall|k: int|
                0 <= k < cids@.len() ==> bitset_contents(*#[trigger] r@[k]) == self.components@[cids@[
                    k].spec_id() as int].set_for(cids@[k]),
    {
        let mut r: Vec<&ArchetypeBitSet> = Vec::new();
        let mut k: usize = 0;
        while k < cids.len()
            invariant
                self.wf(),
                forall|k: int| 0 <= k < cids@.len() ==> self.valid_cid(#[trigger] cids@[k]),
                0 <= k <= cids@.len(),
                r@.len() == k,
                forall|j: int|
                    0 <= j < k ==> bitset_contents(*#[trigger] r@[j]) == self.components@[cids@[
                        j].spec_id() as int].set_for(cids@[j]),
            decreases cids@.len() - k,
        {
            let c = cids[k];
            proof {
                assert(self.valid_cid(cids@[k as int]));
            }
            r.push(self.components[c.as_index()].get_archetype_bitset(c));
            k += 1;
        }
        r
    }

    /// Membership of an archetype in the set of a component is membership of the component
    /// in the archetype's key.
    proof fn lemma_set_for(&self, a: usize, c: ComponentId)
        requires
            self.wf(),
            self.valid_cid(c),
        ensures
            self.components@[c.spec_id() as int].set_for(c).contains(a) <==> (a < self.archetypes@.len()
                && self.key(a as int).contains(c)),
    {
        let k = c.spec_id() as int;
        if self.components@[k].set_for(c).contains(a) {
            if c.spec_is_target() {
                assert(self.components@[k].target_set().contains(a));
            } else {
                assert(self.components@[k].origin_set().contains(a));
            }
        }
        if a < self.archetypes@.len() {
            assert(self.components@[k].set_for(c).contains((a as int) as usize) <==> self.exact_archetype@[a as int]@.contains(c));
        }
    }

    /// The archetypes that have all components of `with` and none of `without`, ascending.
    /// There is at least one component in all, and at most `REDUCE_MAX_SETS` in either list,
    /// the most the bitset reduction takes.
    pub fn matching_archetypes(&self, with: &[ComponentId], without: &[ComponentId]) -> (r: Vec<ArchetypeId>)
        requires
            self.wf(),
            with@.len() + without@.len() > 0,
            with@.len() <= REDUCE_MAX_SETS,
            without@.len() <= REDUCE_MAX_SETS,
            forall|k: int| 0 <= k < with@.len() ==> self.valid_cid(#[trigger] with@[k]),
            forall|k: int| 0 <= k < without@.len() ==> self.valid_cid(#[trigger] without@[k]),
        ensures
            forall|i: int, j: int| 0 <= i < j < r@.len() ==> r@[i].0 < r@[j].0,
            forall|a: u32|
                #[trigger] r@.contains(ArchetypeId(a)) <==> (a < self.archetypes@.len() && self.matches(
                    a as int,
                    with@,
                    without@,
                )),
    {
        if without.len() == 0 {
            // simplest case
            let with_sets = self.bitsets_of(with);
            let ids = bitsets_intersection(&with_sets);
            proof {
                assert forall|i: int| 0 <= i < ids@.len() implies #[trigger] ids@[i] < self.archetypes@.len() by {
                    assert(ids@.contains(ids@[i]));
                    assert(bitset_contents(*with_sets@[0]).contains(ids@[i]));
                    self.lemma_set_for(ids@[i], with@[0]);
                }
            }
            let r = Self::to_archetype_ids(&ids, self.archetypes.len());
            proof {
                assert forall|a: u32| #[trigger] r@.contains(ArchetypeId(a)) <==> (a < self.archetypes@.len()
                    && self.matches(a as int, with@, without@)) by {
                    assert(r@.contains(ArchetypeId(a)) <==> ids@.contains(a as usize));
                    if ids@.contains(a as usize) {
                        assert(bitset_contents(*with_sets@[0]).contains(a as usize));
                        self.lemma_set_for(a as usize, with@[0]);
                        assert forall|k: int| 0 <= k < with@.len() implies self.key(a as int).contains(#[trigger] with@[k]) by {
                            assert(bitset_contents(*with_sets@[k]).contains(a as usize));
                            self.lemma_set_for(a as usize, with@[k]);
                        }
                    }
                    if a < self.archetypes@.len() && self.matches(a as int, with@, without@) {
                        assert forall|k: int| 0 <= k < with_sets@.len() implies bitset_contents(*with_sets@[k]).contains(a as usize) by {
                            self.lemma_set_for(a as usize, with@[k]);
                            assert(self.key(a as int).contains(with@[k]));
                        }
                    }
                }
            }
            r
        } else if with.len() == 0 {
            let without_sets = self.bitsets_of(without);
            let union = bitsets_union(&without_sets);
            // invert
            let mut r: Vec<ArchetypeId> = Vec::new();
            let n = self.archetypes.len();
            let mut i: usize = 0;
            while i < n
                invariant
                    self.wf(),
                    n == self.archetypes@.len(),
                    n <= BITSET_CAPACITY,
                    0 <= i <= n,
                    with@.len() == 0,
                    forall|x: usize|
                        #[trigger] union@.contains(x) <==> exists|k: int|
                            0 <= k < without_sets@.len() && bitset_contents(*without_sets@[k]).contains(x),
                    without_sets@.len() == without@.len(),
                    forall|k: int|
                        0 <= k < without@.len() ==> bitset_contents(*#[trigger] without_sets@[k]) == self.components@[without@[
                            k].spec_id() as int].set_for(without@[k]),
                    forall|k: int| 0 <= k < without@.len() ==> self.valid_cid(#[trigger] without@[k]),
                    forall|p: int, q: int| 0 <= p < q < r@.len() ==> r@[p].0 < r@[q].0,
                    forall|p: int| 0 <= p < r@.len() ==> r@[p].0 < i,
                    forall|a: u32|
                        a < i ==> (#[trigger] r@.contains(ArchetypeId(a)) <==> self.matches(
                            a as int,
                            with@,
                            without@,
                        )),
                decreases n - i,
            {
                let hit = Self::sorted_contains(&union, i);
                if !hit {
                    let ghost r0 = r@;
                    r.push(ArchetypeId(i as u32));
                    proof {
                        assert forall|a: u32| a < i + 1 implies (#[trigger] r@.contains(ArchetypeId(a)) <==> self.matches(
                            a as int,
                            with@,
                            without@,
                        )) by {
                            if r@.contains(ArchetypeId(a)) && a < i {
                                let p = choose|p: int| 0 <= p < r@.len() && r@[p] == ArchetypeId(a);
                                assert(p < r0.len());
                                assert(r0.contains(ArchetypeId(a)));
                            }
                            if a < i && r0.contains(ArchetypeId(a)) {
                                let p = choose|p: int| 0 <= p < r0.len() && r0[p] == ArchetypeId(a);
                                assert(r@[p] == ArchetypeId(a));
                            }
                            if a == i {
                                assert(r@[r0.len() as int] == ArchetypeId(a));
                                assert forall|k: int| 0 <= k < without@.len() implies !self.key(a as int).contains(#[trigger] without@[k]) by {
                                    self.lemma_set_for(a as usize, without@[k]);
                                    if self.key(a as int).contains(without@[k]) {
                                        assert(bitset_contents(*without_sets@[k]).contains(a as usize));
                                    }
                                }
                            }
                        }
                    }
                } else {
                    proof {
                        assert forall|a: u32| a < i + 1 implies (#[trigger] r@.contains(ArchetypeId(a)) <==> self.matches(
                            a as int,
                            with@,
                            without@,
                        )) by {
                            if a == i {
                                if r@.contains(ArchetypeId(a)) {
                                    let p = choose|p: int| 0 <= p < r@.len() && r@[p] == ArchetypeId(a);
                                }
                                let k = choose|k: int| 0 <= k < without_sets@.len() && bitset_contents(*without_sets@[k]).contains(a as usize);
                                self.lemma_set_for(a as usize, without@[k]);
                            }
                        }
                    }
                }
                i += 1;
            }
            proof {
                assert forall|a: u32| #[trigger] r@.contains(ArchetypeId(a)) <==> (a < self.archetypes@.len()
                    && self.matches(a as int, with@, without@)) by {
                    if r@.contains(ArchetypeId(a)) {
                        let p = choose|p: int| 0 <= p < r@.len() && r@[p] == ArchetypeId(a);
                    }
                }
            }
            r
        } else {
            // general case
            let with_sets = self.bitsets_of(with);
            let without_sets = self.bitsets_of(without);
            let ids = bitsets_difference(&with_sets, &without_sets);
            proof {
                assert forall|i: int| 0 <= i < ids@.len() implies #[trigger] ids@[i] < self.archetypes@.len() by {
                    assert(ids@.contains(ids@[i]));
                    assert(bitset_contents(*with_sets@[0]).contains(ids@[i]));
                    self.lemma_set_for(ids@[i], with@[0]);
                }
            }
            let r = Self::to_archetype_ids(&ids, self.archetypes.len());
            proof {
                assert forall|a: u32| #[trigger] r@.contains(ArchetypeId(a)) <==> (a < self.archetypes@.len()
                    && self.matches(a as int, with@, without@)) by {
                    assert(r@.contains(ArchetypeId(a)) <==> ids@.contains(a as usize));
                    if ids@.contains(a as usize) {
                        assert(bitset_contents(*with_sets@[0]).contains(a as usize));
                        self.lemma_set_for(a as usize, with@[0]);
                        assert forall|k: int| 0 <= k < with@.len() implies self.key(a as int).contains(#[trigger] with@[k]) by {
                            assert(bitset_contents(*with_sets@[k]).contains(a as usize));
                            self.lemma_set_for(a as usize, with@[k]);
                        }
                        assert forall|k: int| 0 <= k < without@.len() implies !self.key(a as int).contains(#[trigger] without@[k]) by {
                            self.lemma_set_for(a as usize, without@[k]);
                            if self.key(a as int).contains(without@[k]) {
                                assert(bitset_contents(*without_sets@[k]).contains(a as usize));
                            }
                        }
                    }
                    if a < self.archetypes@.len() && self.matches(a as int, with@, without@) {
                        assert forall|k: int| 0 <= k < with_sets@.len() implies bitset_contents(*with_sets@[k]).contains(a as usize) by {
                            self.lemma_set_for(a as usize, with@[k]);
                            assert(self.key(a as int).contains(with@[k]));
                        }
                        if exists|k: int| 0 <= k < without_sets@.len() && bitset_contents(*without_sets@[k]).contains(a as usize) {
                            let k = choose|k: int| 0 <= k < without_sets@.len() && bitset_contents(*without_sets@[k]).contains(a as usize);
                            self.lemma_set_for(a as usize, without@[k]);
                            assert(!self.key(a as int).contains(without@[k]));
                        }
                    }
                }
            }
            r
        }
    }

    /// Whether the ascending list holds `x`.
    fn sorted_contains(v: &Vec<usize>, x: usize) -> (r: bool)
        ensures
            r == v@.contains(x),
    {
        let mut i: usize = 0;
        while i < v.len()
            invariant
                0 <= i <= v@.len(),
                forall|j: int| 0 <= j < i ==> v@[j] != x,
            decreases v@.len() - i,
        {
            if v[i] == x {
                return true;
            }
            i += 1;
        }
        false
    }

    /// Archetype ids for ascending indexes that the archetype sets hold.
    fn to_archetype_ids(ids: &Vec<usize>, bound: usize) -> (r: Vec<ArchetypeId>)
        requires
            forall|i: int, j: int| 0 <= i < j < ids@.len() ==> ids@[i] < ids@[j],
            forall|i: int| 0 <= i < ids@.len() ==> #[trigger] ids@[i] < bound,
            bound <= BITSET_CAPACITY,
        ensures
            r@.len() == ids@.len(),
            forall|i: int| 0 <= i < r@.len() ==> #[trigger] r@[i].0 == ids@[i],
            forall|i: int, j: int| 0 <= i < j < r@.len() ==> r@[i].0 < r@[j].0,
            forall|a: u32| #[trigger] r@.contains(ArchetypeId(a)) <==> ids@.contains(a as usize),
    {
        let mut r: Vec<ArchetypeId> = Vec::new();
        let mut i: usize = 0;
        while i < ids.len()
            invariant
                0 <= i <= ids@.len(),
                r@.len() == i,
                forall|k: int| 0 <= k < ids@.len() ==> #[trigger] ids@[k] < bound,
                bound <= BITSET_CAPACITY,
                forall|k: int| 0 <= k < i ==> #[trigger] r@[k].0 == ids@[k],
            decreases ids@.len() - i,
        {
            r.push(ArchetypeId(ids[i] as u32));
            i += 1;
        }
        proof {
            assert forall|a: u32| #[trigger] r@.contains(ArchetypeId(a)) <==> ids@.contains(a as usize) by {
                if r@.contains(ArchetypeId(a)) {
                    let p = choose|p: int| 0 <= p < r@.len() && r@[p] == ArchetypeId(a);
                    assert(r@[p].0 == ids@[p]);
                    assert(ids@[p] == a as usize);
                }
                if ids@.contains(a as usize) {
                    let p = choose|p: int| 0 <= p < ids@.len() && ids@[p] == a as usize;
                    assert(r@[p].0 == a);
                }
            }
        }
        r
    }
}

} // verus!
