//! Relations between entities: each side of a relation is a component whose value lists
//! the ids of the partners.
use vstd::prelude::*;

use crate::archetype::{ArchetypeId, ComponentValue, entry_fits};
use crate::bitset::BITSET_CAPACITY;
use crate::bookkeeping::Bookkeeping;
use crate::component::ComponentId;
use crate::entity_store::{Entity, EntityGeneration, EntityId};
use std::collections::HashSet;
use vstd::set_lib::{lemma_int_range, lemma_len_subset, set_int_range};
use crate::relation_vec::{RelationVec, lemma_remove_all_contains, lemma_remove_all_counts, remove_all, remove_first};
use crate::consistency::lemma_relate_step_push;

verus! {

/// `s` after relating to `x`: pushed at the end, or, for an exclusive relation that already
/// has a partner, written over the first partner.
pub open spec fn relate_step(s: Seq<u32>, x: u32, exclusive: bool) -> Seq<u32> {
    if exclusive && s.len() > 0 {
        s.update(0, x)
    } else {
        s.push(x)
    }
}

impl<V> Bookkeeping<V> {
    /// The ids that slot `i` is related to through the relation side `cid`;
    /// empty when it does not have that component.
    pub open spec fn partners(&self, i: int, cid: ComponentId) -> Seq<u32> {
        if self.entity_key(i).contains(cid) && self.sized(cid) {
            match self.entity_value(i, cid) {
                ComponentValue::Relation(rv) => rv@,
                ComponentValue::Data(_) => Seq::empty(),
            }
        } else {
            Seq::empty()
        }
    }

    /// The components of a living entity are valid ids.
    pub(crate) proof fn lemma_key_valid(&self, i: int, c: ComponentId)
        requires
            self.wf(),
            self.entities.slot_alive(i),
            self.entity_key(i).contains(c),
        ensures
            self.valid_cid(c),
    {
        assert(self.exact_archetype@[self.slot_arch(i)]@.contains(c));
    }

    /// The target side of a valid origin side is valid too.
    proof fn lemma_flip_valid(&self, cid: ComponentId)
        requires
            self.wf(),
            self.valid_cid(cid),
            cid.spec_is_relation(),
            !cid.spec_is_target(),
        ensures
            self.valid_cid(cid.spec_flip_target()),
    {
        let o = self.components@[cid.spec_id() as int].id;
        cid.lemma_flip_target();
        if cid != o {
            o.lemma_flip_target();
        }
    }

    /// A relation side is a component with a size.
    proof fn lemma_relation_sized_pub(b: &Self, cid: ComponentId)
        requires
            b.wf(),
            b.valid_cid(cid),
            cid.spec_is_relation(),
        ensures
            b.sized(cid),
    {
        b.lemma_relation_sized(cid);
    }

    /// A relation side is a component with a size.
    proof fn lemma_relation_sized(&self, cid: ComponentId)
        requires
            self.wf(),
            self.valid_cid(cid),
            cid.spec_is_relation(),
        ensures
            self.sized(cid),
    {
        let k = cid.spec_id() as int;
        let o = self.components@[k].id;
        if cid != o {
            assert(o.spec_is_relation());
        }
    }

    /// Relates the living entity `e` to `other` through the relation side `cid`.
    pub(crate) fn relate_one(&mut self, cid: ComponentId, e: Entity, other: u32)
        requires
            old(self).wf(),
            old(self).alive(e),
            e.generation.0 % 2 == 1,
            old(self).valid_cid(cid),
            cid.spec_is_relation(),
            old(self).partners(e.id.0 as int, cid).len() < u32::MAX,
            old(self).archetypes@.len() < BITSET_CAPACITY,
        ensures
            final(self).wf(),
            final(self).alive(e),
            final(self).same_except(old(self), e.id.0 as int),
            final(self).archetypes@.len() <= old(self).archetypes@.len() + 1,
            forall|c: ComponentId|
                #[trigger] final(self).entity_key(e.id.0 as int).contains(c) <==> (old(self).entity_key(
                    e.id.0 as int,
                ).contains(c) || c == cid),
            forall|c: ComponentId|
                #[trigger] old(self).entity_key(e.id.0 as int).contains(c) && old(self).sized(c) && c
                    != cid ==> final(self).entity_value(e.id.0 as int, c) == old(self).entity_value(
                    e.id.0 as int,
                    c,
                ),
            final(self).partners(e.id.0 as int, cid) == relate_step(
                old(self).partners(e.id.0 as int, cid),
                other,
                cid.spec_is_exclusive(),
            ),
    {
        let ghost id = e.id.0 as int;
        proof {
            self.lemma_relation_sized(cid);
        }
        if self.has_component(e, cid) {
            proof {
                assert(self.entities.slot_alive(id));
                self.lemma_entry(id, cid);
            }
            let old_val = self.replace_component(e, cid, ComponentValue::Relation(RelationVec::new()));
            let ghost mid = *self;
            match old_val {
                ComponentValue::Relation(mut rv) => {
                    if cid.is_exclusive() && rv.len() > 0 {
                        rv.set(0, other);
                    } else {
                        rv.push(other);
                    }
                    let _ = self.replace_component(e, cid, ComponentValue::Relation(rv));
                    proof {
                        let o = old(self);
                        Self::lemma_same_except_trans(self, &mid, o, id);
                        assert forall|c: ComponentId|
                            #[trigger] o.entity_key(id).contains(c) && o.sized(c) && c != cid implies self.entity_value(
                            id,
                            c,
                        ) == o.entity_value(id, c) by {
                            assert(o.valid_cid(c));
                            assert(mid.sized(c));
                        }
                    }
                },
                ComponentValue::Data(_) => {
                    proof {
                        assert(false);
                    }
                },
            }
        } else {
            let mut rv = RelationVec::new();
            rv.push(other);
            proof {
                assert(rv@ == Seq::<u32>::empty().push(other));
            }
            self.add_component(e, cid, Some(ComponentValue::Relation(rv)));
        }
    }
}

impl<V> Bookkeeping<V> {
    /// Like `same_except`, for the two slots `x` and `y`.
    pub open spec fn same_except2(&self, old: &Self, x: int, y: int) -> bool {
        &&& self.same_components(old)
        &&& old.archetypes@.len() <= self.archetypes@.len()
        &&& forall|a: int| 0 <= a < old.archetypes@.len() ==> #[trigger] self.key(a) == old.key(a)
        &&& self.entities.count() == old.entities.count()
        &&& self.entities.free_list() == old.entities.free_list()
        &&& self.entities.next_free_spec() == old.entities.next_free_spec()
        &&& self.entities.deferred_spec() == old.entities.deferred_spec()
        &&& forall|i: int|
            0 <= i < old.entities.count() ==> #[trigger] self.entities.gen_of(i)
                == old.entities.gen_of(i)
        &&& forall|i: int| #[trigger] self.entities.slot_alive(i) <==> old.entities.slot_alive(i)
        &&& forall|i: int|
            old.entities.slot_alive(i) && i != x && i != y ==> #[trigger] self.same_entity(old, i)
    }

    /// `self` differs from `old` at most in the sides of the relation `cid`: the same entities
    /// live, with the same generations, and each keeps every other component with its value.
    pub open spec fn only_relation_changed(&self, old: &Self, cid: ComponentId) -> bool {
        &&& self.same_components(old)
        &&& self.entities.count() == old.entities.count()
        &&& forall|i: int| #[trigger] self.entities.slot_alive(i) <==> old.entities.slot_alive(i)
        &&& forall|i: int| old.entities.slot_alive(i) ==> #[trigger] self.entities.gen_of(i) == old.entities.gen_of(i)
        &&& forall|i: int, c: ComponentId|
            old.entities.slot_alive(i) && c != cid && c != cid.spec_flip_target() ==> (
            #[trigger] self.entity_key(i).contains(c) <==> old.entity_key(i).contains(c))
        &&& forall|i: int, c: ComponentId|
            old.entities.slot_alive(i) && #[trigger] old.entity_key(i).contains(c) && old.sized(c) && c != cid
                && c != cid.spec_flip_target() ==> self.entity_value(i, c) == old.entity_value(i, c)
    }

    /// Changing only the sides of `cid` twice changes only them.
    proof fn lemma_only_relation_trans(c: &Self, b: &Self, a: &Self, cid: ComponentId)
        requires
            a.wf(),
            b.only_relation_changed(a, cid),
            c.only_relation_changed(b, cid),
        ensures
            c.only_relation_changed(a, cid),
    {
        assert forall|k: int| 0 <= k < c.components@.len() implies (#[trigger] c.components@[k]).id
            == a.components@[k].id && c.components@[k].layout_size == a.components@[k].layout_size by {
            assert(b.components@[k].id == a.components@[k].id);
        }
        assert forall|i: int, x: ComponentId|
            a.entities.slot_alive(i) && #[trigger] a.entity_key(i).contains(x) && a.sized(x) && x != cid
                && x != cid.spec_flip_target() implies c.entity_value(i, x) == a.entity_value(i, x) by {
            assert(b.entity_key(i).contains(x));
            a.lemma_key_valid(i, x);
            assert(b.sized(x) == a.sized(x));
        }
    }

    /// Changing only two entities, and in them only the sides of `cid`, changes only those sides.
    proof fn lemma_only_relation_from_two(new: &Self, old: &Self, cid: ComponentId, x: int, y: int)
        requires
            new.same_except2(old, x, y),
            forall|i: int, c: ComponentId|
                (i == x || i == y) && c != cid && c != cid.spec_flip_target() ==> (
                #[trigger] new.entity_key(i).contains(c) <==> old.entity_key(i).contains(c)),
            forall|i: int, c: ComponentId|
                (i == x || i == y) && #[trigger] old.entity_key(i).contains(c) && old.sized(c) && c != cid
                    && c != cid.spec_flip_target() ==> new.entity_value(i, c) == old.entity_value(i, c),
        ensures
            new.only_relation_changed(old, cid),
    {
        assert forall|i: int, c: ComponentId|
            old.entities.slot_alive(i) && c != cid && c != cid.spec_flip_target() implies (
            #[trigger] new.entity_key(i).contains(c) <==> old.entity_key(i).contains(c)) by {
            if i != x && i != y {
                assert(new.same_entity(old, i));
            }
        }
        assert forall|i: int, c: ComponentId|
            old.entities.slot_alive(i) && #[trigger] old.entity_key(i).contains(c) && old.sized(c) && c != cid
                && c != cid.spec_flip_target() implies new.entity_value(i, c) == old.entity_value(i, c) by {
            if i != x && i != y {
                assert(new.same_entity(old, i));
            }
        }
    }

    /// Every pair but `(from, to)` in `cid` and its mirror `(to, from)` in the other side is
    /// related in `self` exactly when it was in `old`.
    pub open spec fn related_elsewhere_same(&self, old: &Self, cid: ComponentId, from: u32, to: u32) -> bool {
        forall|c: ComponentId, x: u32, y: u32|
            old.valid_cid(c) && !(c == cid && x == from && y == to) && !(c == cid.spec_flip_target() && x == to
                && y == from) ==> (#[trigger] self.related(c, x, y) <==> old.related(c, x, y))
    }

    /// Changing only the two lists `(from, cid)` and `(to, flip)`, each only in the partner
    /// named by the pair, keeps every other pair related as it was.
    proof fn lemma_related_frame(new: &Self, old: &Self, cid: ComponentId, from: int, to: int)
        requires
            old.wf(),
            new.same_except2(old, from, to),
            forall|i: int, c: ComponentId|
                (i == from || i == to) && old.valid_cid(c) && c != cid && c != cid.spec_flip_target()
                    ==> #[trigger] new.partners(i, c) == old.partners(i, c),
            forall|y: u32| y != to ==> (#[trigger] new.partners(from, cid).contains(y) <==> old.partners(from, cid).contains(y)),
            forall|y: u32| y != from ==> (#[trigger] new.partners(to, cid.spec_flip_target()).contains(y) <==> old.partners(
                to,
                cid.spec_flip_target(),
            ).contains(y)),
            from != to && cid.spec_flip_target() != cid ==> new.partners(from, cid.spec_flip_target()) == old.partners(
                from,
                cid.spec_flip_target(),
            ) && new.partners(to, cid) == old.partners(to, cid),
            0 <= from <= u32::MAX,
            0 <= to <= u32::MAX,
        ensures
            new.related_elsewhere_same(old, cid, from as u32, to as u32),
    {
        assert forall|c: ComponentId, x: u32, y: u32|
            old.valid_cid(c) && !(c == cid && x == from as u32 && y == to as u32) && !(c == cid.spec_flip_target()
                && x == to as u32 && y == from as u32) implies (#[trigger] new.related(c, x, y) <==> old.related(c, x, y)) by {
            let i = x as int;
            if old.entities.slot_alive(i) && i != from && i != to {
                assert(new.same_entity(old, i));
                Self::lemma_same_entity_partners(new, old, i, c);
            }
        }
    }

    /// Two steps that each change one slot change at most those two.
    proof fn lemma_same_except2(c: &Self, b: &Self, a: &Self, x: int, y: int)
        requires
            a.wf(),
            b.same_except(a, x),
            c.same_except(b, y),
        ensures
            c.same_except2(a, x, y),
    {
        assert forall|k: int| 0 <= k < c.components@.len() implies (#[trigger] c.components@[k]).id
            == a.components@[k].id && c.components@[k].layout_size == a.components@[k].layout_size by {
            assert(b.components@[k].id == a.components@[k].id);
        }
        assert forall|aa: int| 0 <= aa < a.archetypes@.len() implies #[trigger] c.key(aa) == a.key(aa) by {
            assert(b.key(aa) == a.key(aa));
        }
        assert forall|i: int| a.entities.slot_alive(i) && i != x && i != y implies #[trigger] c.same_entity(
            a,
            i,
        ) by {
            assert(b.same_entity(a, i));
            assert(c.same_entity(b, i));
            Self::lemma_same_entity_trans(c, b, a, i);
        }
    }

    /// Partners of a slot whose component `c` kept its presence and value are the same.
    pub proof fn lemma_partners_same(new: &Self, old: &Self, i: int, c: ComponentId)
        requires
            new.entity_key(i).contains(c) == old.entity_key(i).contains(c),
            new.sized(c) == old.sized(c),
            old.entity_key(i).contains(c) && old.sized(c) ==> new.entity_value(i, c)
                == old.entity_value(i, c),
        ensures
            new.partners(i, c) == old.partners(i, c),
    {
    }

    /// Takes one occurrence of `other` out of the partners of the living entity `e` in the
    /// relation side `cid`; when none are left, the component goes.
    pub(crate) fn unrelate_one(&mut self, cid: ComponentId, e: Entity, other: u32)
        requires
            old(self).wf(),
            old(self).alive(e),
            e.generation.0 % 2 == 1,
            old(self).valid_cid(cid),
            cid.spec_is_relation(),
            old(self).archetypes@.len() < BITSET_CAPACITY,
        ensures
            final(self).wf(),
            final(self).alive(e),
            final(self).same_except(old(self), e.id.0 as int),
            final(self).archetypes@.len() <= old(self).archetypes@.len() + 1,
            forall|c: ComponentId|
                c != cid ==> (#[trigger] final(self).entity_key(e.id.0 as int).contains(c)
                    <==> old(self).entity_key(e.id.0 as int).contains(c)),
            final(self).entity_key(e.id.0 as int).contains(cid) <==> (old(self).entity_key(
                e.id.0 as int,
            ).contains(cid) && remove_first(old(self).partners(e.id.0 as int, cid), other).len() > 0),
            forall|c: ComponentId|
                #[trigger] old(self).entity_key(e.id.0 as int).contains(c) && old(self).sized(c) && c
                    != cid ==> final(self).entity_value(e.id.0 as int, c) == old(self).entity_value(
                    e.id.0 as int,
                    c,
                ),
            final(self).partners(e.id.0 as int, cid) == remove_first(
                old(self).partners(e.id.0 as int, cid),
                other,
            ),
    {
        let ghost id = e.id.0 as int;
        proof {
            self.lemma_relation_sized(cid);
        }
        if self.has_component(e, cid) {
            proof {
                assert(self.entities.slot_alive(id));
                self.lemma_entry(id, cid);
            }
            let old_val = self.replace_component(e, cid, ComponentValue::Relation(RelationVec::new()));
            let ghost mid = *self;
            match old_val {
                ComponentValue::Relation(mut rv) => {
                    rv.remove(other);
                    if rv.is_empty() {
                        let _ = self.remove_component(e, cid);
                    } else {
                        let _ = self.replace_component(e, cid, ComponentValue::Relation(rv));
                    }
                    proof {
                        let o = old(self);
                        Self::lemma_same_except_trans(self, &mid, o, id);
                        assert forall|c: ComponentId|
                            #[trigger] o.entity_key(id).contains(c) && o.sized(c) && c != cid implies self.entity_value(
                            id,
                            c,
                        ) == o.entity_value(id, c) by {
                            assert(o.valid_cid(c));
                            assert(mid.sized(c));
                        }
                        assert forall|c: ComponentId| c != cid implies (#[trigger] self.entity_key(id).contains(c)
                            <==> o.entity_key(id).contains(c)) by {
                            assert(mid.entity_key(id).contains(c) <==> o.entity_key(id).contains(c));
                        }
                    }
                },
                ComponentValue::Data(_) => {
                    proof {
                        assert(false);
                    }
                },
            }
        } else {
            proof {
                assert(self.same_except(old(self), id)) by {
                    assert forall|i: int| old(self).entities.slot_alive(i) implies #[trigger] self.same_entity(old(self), i) by {}
                }
            }
        }
    }

    /// Takes every occurrence of `other` out of the partners of the living entity `e` in the
    /// relation side `cid`; when none are left, the component goes.
    pub(crate) fn unrelate_all(&mut self, cid: ComponentId, e: Entity, other: u32)
        requires
            old(self).wf(),
            old(self).alive(e),
            e.generation.0 % 2 == 1,
            old(self).valid_cid(cid),
            cid.spec_is_relation(),
            old(self).archetypes@.len() < BITSET_CAPACITY,
        ensures
            final(self).wf(),
            final(self).alive(e),
            final(self).same_except(old(self), e.id.0 as int),
            final(self).archetypes@.len() <= old(self).archetypes@.len() + 1,
            forall|c: ComponentId|
                c != cid ==> (#[trigger] final(self).entity_key(e.id.0 as int).contains(c)
                    <==> old(self).entity_key(e.id.0 as int).contains(c)),
            final(self).entity_key(e.id.0 as int).contains(cid) <==> (old(self).entity_key(
                e.id.0 as int,
            ).contains(cid) && remove_all(old(self).partners(e.id.0 as int, cid), other).len() > 0),
            forall|c: ComponentId|
                #[trigger] old(self).entity_key(e.id.0 as int).contains(c) && old(self).sized(c) && c
                    != cid ==> final(self).entity_value(e.id.0 as int, c) == old(self).entity_value(
                    e.id.0 as int,
                    c,
                ),
            final(self).partners(e.id.0 as int, cid) == remove_all(
                old(self).partners(e.id.0 as int, cid),
                other,
            ),
    {
        let ghost id = e.id.0 as int;
        proof {
            self.lemma_relation_sized(cid);
        }
        if self.has_component(e, cid) {
            proof {
                assert(self.entities.slot_alive(id));
                self.lemma_entry(id, cid);
            }
            let old_val = self.replace_component(e, cid, ComponentValue::Relation(RelationVec::new()));
            let ghost mid = *self;
            match old_val {
                ComponentValue::Relation(mut rv) => {
                    rv.remove_all(other);
                    if rv.is_empty() {
                        let _ = self.remove_component(e, cid);
                    } else {
                        let _ = self.replace_component(e, cid, ComponentValue::Relation(rv));
                    }
                    proof {
                        let o = old(self);
                        Self::lemma_same_except_trans(self, &mid, o, id);
                        assert forall|c: ComponentId|
                            #[trigger] o.entity_key(id).contains(c) && o.sized(c) && c != cid implies self.entity_value(
                            id,
                            c,
                        ) == o.entity_value(id, c) by {
                            assert(o.valid_cid(c));
                            assert(mid.sized(c));
                        }
                        assert forall|c: ComponentId| c != cid implies (#[trigger] self.entity_key(id).contains(c)
                            <==> o.entity_key(id).contains(c)) by {
                            assert(mid.entity_key(id).contains(c) <==> o.entity_key(id).contains(c));
                        }
                    }
                },
                ComponentValue::Data(_) => {
                    proof {
                        assert(false);
                    }
                },
            }
        } else {
            proof {
                assert(self.same_except(old(self), id)) by {
                    assert forall|i: int| old(self).entities.slot_alive(i) implies #[trigger] self.same_entity(old(self), i) by {}
                }
            }
        }
    }
}

impl<V> Bookkeeping<V> {
    /// Relates `from` to `to` through the relation `cid` (given by its origin side): `to` joins
    /// the partners of `from` in `cid`, and `from` joins the partners of `to` in the target side.
    /// For an exclusive relation whose origin already has a partner, `to` takes the place of
    /// the first one in the origin's list (the partner's own list is left as it is).
    fn relate_pair(&mut self, cid: ComponentId, from: Entity, to: Entity)
        requires
            old(self).wf(),
            old(self).alive(from),
            old(self).alive(to),
            from.generation.0 % 2 == 1,
            to.generation.0 % 2 == 1,
            old(self).valid_cid(cid),
            cid.spec_is_relation(),
            !cid.spec_is_target(),
            old(self).partners(from.id.0 as int, cid).len() + 1 < u32::MAX,
            old(self).partners(to.id.0 as int, cid.spec_flip_target()).len() + 1 < u32::MAX,
            old(self).archetypes@.len() + 1 < BITSET_CAPACITY,
        ensures
            final(self).wf(),
            final(self).alive(from),
            final(self).alive(to),
            final(self).same_except2(old(self), from.id.0 as int, to.id.0 as int),
            final(self).archetypes@.len() <= old(self).archetypes@.len() + 2,
            forall|c: ComponentId|
                #[trigger] final(self).entity_key(from.id.0 as int).contains(c) <==> (old(self).entity_key(from.id.0 as int).contains(c) || c == cid || (from.id == to.id && c
                    == cid.spec_flip_target())),
            forall|c: ComponentId|
                #[trigger] final(self).entity_key(to.id.0 as int).contains(c) <==> (old(self).entity_key(
                    to.id.0 as int,
                ).contains(c) || c == cid.spec_flip_target() || (from.id == to.id && c == cid)),
            forall|i: int, c: ComponentId|
                (i == from.id.0 || i == to.id.0) && #[trigger] old(self).entity_key(i).contains(c)
                    && old(self).sized(c) && c != cid && c != cid.spec_flip_target() ==> final(self).entity_value(i, c) == old(self).entity_value(i, c),
            forall|i: int, c: ComponentId|
                (i == from.id.0 || i == to.id.0) && old(self).valid_cid(c) && c != cid && c
                    != cid.spec_flip_target() ==> #[trigger] final(self).partners(i, c) == old(self).partners(i, c),
            from.id == to.id && cid.spec_flip_target() == cid ==> final(self).partners(
                from.id.0 as int,
                cid,
            ) == relate_step(
                relate_step(old(self).partners(from.id.0 as int, cid), to.id.0, cid.spec_is_exclusive()),
                from.id.0,
                cid.spec_is_exclusive(),
            ),
            !(from.id == to.id && cid.spec_flip_target() == cid) ==> {
                &&& final(self).partners(from.id.0 as int, cid) == relate_step(
                    old(self).partners(from.id.0 as int, cid),
                    to.id.0,
                    cid.spec_is_exclusive(),
                )
                &&& final(self).partners(to.id.0 as int, cid.spec_flip_target()) == relate_step(
                    old(self).partners(to.id.0 as int, cid.spec_flip_target()),
                    from.id.0,
                    cid.spec_flip_target().spec_is_exclusive(),
                )
            },
            from.id != to.id && cid.spec_flip_target() != cid ==> final(self).partners(
                from.id.0 as int,
                cid.spec_flip_target(),
            ) == old(self).partners(from.id.0 as int, cid.spec_flip_target()) && final(self).partners(
                to.id.0 as int,
                cid,
            ) == old(self).partners(to.id.0 as int, cid),
            final(self).related(cid, from.id.0, to.id.0),
            final(self).related(cid.spec_flip_target(), to.id.0, from.id.0),
            old(self).relations_consistent() && (!cid.spec_is_exclusive() || (old(self).partners(
                from.id.0 as int,
                cid,
            ).len() == 0 && (cid.spec_flip_target() != cid || from.id == to.id || old(self).partners(
                to.id.0 as int,
                cid,
            ).len() == 0))) ==> final(self).relations_consistent(),
    {
        let ghost x = from.id.0 as int;
        let ghost y = to.id.0 as int;
        let flipped = cid.flip_target();
        proof {
            cid.lemma_flip_target();
        }
        self.relate_one(cid, from, to.id.0);
        let ghost mid = *self;
        proof {
            let o = old(self);
            assert(self.entities.slot_alive(y));
            assert(self.alive(to));
            o.lemma_flip_valid(cid);
            if x != y {
                assert(mid.same_entity(o, y));
                Self::lemma_partners_same(&mid, o, y, flipped);
            } else if flipped != cid {
                o.lemma_flip_valid(cid);
                Self::lemma_partners_same(&mid, o, y, flipped);
            }
        }
        self.relate_one(flipped, to, from.id.0);
        proof {
            let o = old(self);
            Self::lemma_same_except2(self, &mid, o, x, y);
            assert forall|i: int, c: ComponentId|
                (i == x || i == y) && #[trigger] o.entity_key(i).contains(c) && o.sized(c) && c != cid && c
                    != flipped implies self.entity_value(i, c) == o.entity_value(i, c) by {
                o.lemma_key_valid(i, c);
                assert(mid.sized(c));
                if i == x {
                    assert(mid.entity_value(x, c) == o.entity_value(x, c));
                    assert(mid.entity_key(x).contains(c));
                    if x != y {
                        assert(self.same_entity(&mid, x));
                    }
                } else {
                    assert(mid.same_entity(o, y));
                    assert(mid.entity_key(y).contains(c));
                }
            }
            assert forall|i: int, c: ComponentId|
                (i == x || i == y) && o.valid_cid(c) && c != cid && c != flipped implies #[trigger] self.partners(
                i,
                c,
            ) == o.partners(i, c) by {
                assert(mid.sized(c) == o.sized(c));
                assert(self.sized(c) == o.sized(c));
                if o.entity_key(i).contains(c) && o.sized(c) {
                    assert(self.entity_value(i, c) == o.entity_value(i, c));
                }
                if i == x {
                    if x != y {
                        assert(self.same_entity(&mid, x));
                    }
                } else {
                    if x != y {
                        assert(mid.same_entity(o, y));
                    }
                }
                assert(self.entity_key(i).contains(c) == o.entity_key(i).contains(c));
                Self::lemma_partners_same(self, o, i, c);
            }
            if !(x == y && flipped == cid) {
                if x != y {
                    assert(self.same_entity(&mid, x));
                } 
                assert(mid.valid_cid(cid));
                Self::lemma_partners_same(self, &mid, x, cid);
            }
            if x != y && flipped != cid {
                assert(o.valid_cid(flipped));
                Self::lemma_partners_same(&mid, o, x, flipped);
                assert(self.same_entity(&mid, x));
                Self::lemma_same_entity_partners(self, &mid, x, flipped);
                assert(mid.same_entity(o, y));
                Self::lemma_same_entity_partners(&mid, o, y, cid);
                assert(mid.valid_cid(cid));
                Self::lemma_partners_same(self, &mid, y, cid);
            }
            // both sides now list each other
            if x == y && flipped == cid {
                let p = relate_step(relate_step(o.partners(x, cid), to.id.0, cid.spec_is_exclusive()), from.id.0, cid.spec_is_exclusive());
                if cid.spec_is_exclusive() && relate_step(o.partners(x, cid), to.id.0, cid.spec_is_exclusive()).len() > 0 {
                    assert(p[0] == from.id.0);
                } else {
                    assert(p[p.len() - 1] == from.id.0);
                }
                assert(p.contains(from.id.0));
            } else {
                let p = relate_step(o.partners(x, cid), to.id.0, cid.spec_is_exclusive());
                if cid.spec_is_exclusive() && o.partners(x, cid).len() > 0 {
                    assert(p[0] == to.id.0);
                } else {
                    assert(p[p.len() - 1] == to.id.0);
                }
                let q = relate_step(o.partners(y, flipped), from.id.0, flipped.spec_is_exclusive());
                if flipped.spec_is_exclusive() && o.partners(y, flipped).len() > 0 {
                    assert(q[0] == from.id.0);
                } else {
                    assert(q[q.len() - 1] == from.id.0);
                }
            }
            if o.relations_consistent() && (!cid.spec_is_exclusive() || (o.partners(x, cid).len() == 0
                && (flipped != cid || x == y || o.partners(y, cid).len() == 0))) {
                Self::lemma_add_consistent(self, o, cid, from.id.0, to.id.0);
            }
        }
    }

    /// Relates `from` to `to` through the relation `cid` (given by its origin side): `to` joins
    /// the partners of `from` in `cid`, and `from` joins the partners of `to` in the target side.
    /// An exclusive relation first gives up its old pair: the origin and its first partner no
    /// longer list each other, so that with relations kept consistent and at most one partner
    /// per origin, `to` is the origin's only partner afterwards; for a relation that is also
    /// symmetric the same holds of `to` and its first partner.
    pub fn add_relation(&mut self, cid: ComponentId, from: Entity, to: Entity)
        requires
            old(self).wf(),
            old(self).alive(from),
            old(self).alive(to),
            from.generation.0 % 2 == 1,
            to.generation.0 % 2 == 1,
            old(self).valid_cid(cid),
            cid.spec_is_relation(),
            !cid.spec_is_target(),
            old(self).partners(from.id.0 as int, cid).len() + 1 < u32::MAX,
            old(self).partners(to.id.0 as int, cid.spec_flip_target()).len() + 1 < u32::MAX,
            old(self).archetypes@.len() + 5 < BITSET_CAPACITY,
        ensures
            final(self).wf(),
            final(self).alive(from),
            final(self).alive(to),
            final(self).archetypes@.len() <= old(self).archetypes@.len() + 6,
            final(self).related(cid, from.id.0, to.id.0),
            final(self).related(cid.spec_flip_target(), to.id.0, from.id.0),
            !cid.spec_is_exclusive() ==> {
                &&& final(self).same_except2(old(self), from.id.0 as int, to.id.0 as int)
                &&& forall|i: int, c: ComponentId|
                    (i == from.id.0 || i == to.id.0) && old(self).valid_cid(c) && c != cid && c
                        != cid.spec_flip_target() ==> #[trigger] final(self).partners(i, c) == old(self).partners(i, c)
                &&& from.id == to.id && cid.spec_flip_target() == cid ==> final(self).partners(
                    from.id.0 as int,
                    cid,
                ) == old(self).partners(from.id.0 as int, cid).push(to.id.0).push(from.id.0)
                &&& !(from.id == to.id && cid.spec_flip_target() == cid) ==> {
                    &&& final(self).partners(from.id.0 as int, cid) == old(self).partners(
                        from.id.0 as int,
                        cid,
                    ).push(to.id.0)
                    &&& final(self).partners(to.id.0 as int, cid.spec_flip_target()) == old(self).partners(
                        to.id.0 as int,
                        cid.spec_flip_target(),
                    ).push(from.id.0)
                }
                &&& from.id != to.id && cid.spec_flip_target() != cid ==> final(self).partners(
                    from.id.0 as int,
                    cid.spec_flip_target(),
                ) == old(self).partners(from.id.0 as int, cid.spec_flip_target()) && final(self).partners(
                    to.id.0 as int,
                    cid,
                ) == old(self).partners(to.id.0 as int, cid)
                &&& old(self).relations_consistent() ==> final(self).relations_consistent()
                &&& final(self).related_elsewhere_same(old(self), cid, from.id.0, to.id.0)
            },
            cid.spec_is_exclusive() && old(self).relations_consistent() && old(self).partners(
                from.id.0 as int,
                cid,
            ).len() <= 1 && (cid.spec_flip_target() != cid || old(self).partners(to.id.0 as int, cid).len()
                <= 1) ==> {
                &&& final(self).relations_consistent()
                &&& final(self).partners(from.id.0 as int, cid) == seq![to.id.0]
                &&& forall|p: u32|
                    #[trigger] old(self).partners(from.id.0 as int, cid).contains(p) && p != to.id.0 && p
                        != from.id.0 ==> !final(self).related(cid.spec_flip_target(), p, from.id.0)
                &&& cid.spec_flip_target() == cid ==> forall|q: u32|
                    #[trigger] old(self).partners(to.id.0 as int, cid).contains(q) && q != to.id.0 && q
                        != from.id.0 ==> !final(self).related(cid, q, to.id.0)
            },
            cid.spec_is_exclusive() ==> {
                &&& final(self).only_relation_changed(old(self), cid)
                &&& forall|i: int|
                    old(self).entities.slot_alive(i) && i != from.id.0 && i != to.id.0 && !old(self).partners(
                        from.id.0 as int,
                        cid,
                    ).contains(i as u32) && !(cid.spec_flip_target() == cid && old(self).partners(
                        to.id.0 as int,
                        cid,
                    ).contains(i as u32)) ==> #[trigger] final(self).same_entity(old(self), i)
            },
    {
        if !cid.is_exclusive() {
            self.relate_pair(cid, from, to);
            proof {
                let o = old(self);
                lemma_relate_step_push(o.partners(from.id.0 as int, cid), to.id.0, false);
                cid.lemma_flip_target();
                let x = from.id.0 as int;
                let y = to.id.0 as int;
                let pf = o.partners(x, cid);
                let pt = o.partners(y, cid.spec_flip_target());
                lemma_relate_step_push(pf.push(to.id.0), from.id.0, false);
                lemma_relate_step_push(pt, from.id.0, false);
                assert forall|z: u32| z != to.id.0 implies (#[trigger] self.partners(x, cid).contains(z)
                    <==> pf.contains(z)) by {
                    if self.partners(x, cid).contains(z) {
                        let k = choose|k: int| 0 <= k < self.partners(x, cid).len() && self.partners(x, cid)[k] == z;
                        assert(pf[k] == z);
                    }
                    if pf.contains(z) {
                        let k = choose|k: int| 0 <= k < pf.len() && pf[k] == z;
                        assert(self.partners(x, cid)[k] == z);
                    }
                }
                assert forall|z: u32| z != from.id.0 implies (#[trigger] self.partners(y, cid.spec_flip_target()).contains(z)
                    <==> pt.contains(z)) by {
                    let q = self.partners(y, cid.spec_flip_target());
                    if q.contains(z) {
                        let k = choose|k: int| 0 <= k < q.len() && q[k] == z;
                        if x == y && cid.spec_flip_target() == cid {
                            assert(pf.push(to.id.0).push(from.id.0)[k] == z);
                            assert(k < pf.len());
                        }
                        assert(pt[k] == z);
                    }
                    if pt.contains(z) {
                        let k = choose|k: int| 0 <= k < pt.len() && pt[k] == z;
                        assert(q[k] == z);
                    }
                }
                Self::lemma_related_frame(self, o, cid, x, y);
            }
            return;
        }
        let flipped = cid.flip_target();
        proof {
            cid.lemma_flip_target();
        }
        self.drop_first_partner(cid, from);
        let ghost s1 = *self;
        proof {
            assert(old(self).entities.slot_alive(to.id.0 as int));
            assert(self.alive(to));
        }
        if flipped == cid && from.id.0 != to.id.0 {
            self.drop_first_partner(cid, to);
            proof {
                assert(s1.entities.slot_alive(from.id.0 as int));
                assert(self.alive(from));
            }
        }
        let ghost s2 = *self;
        proof {
            assert(s2.valid_cid(cid));
            old(self).lemma_flip_valid(cid);
            assert(s1.entities.slot_alive(to.id.0 as int));
            assert(s1.partners(to.id.0 as int, flipped).len() <= old(self).partners(to.id.0 as int, flipped).len());
            assert(s2.partners(to.id.0 as int, flipped).len() <= s1.partners(to.id.0 as int, flipped).len());
            assert(s1.partners(from.id.0 as int, cid).len() <= old(self).partners(from.id.0 as int, cid).len());
            assert(s2.partners(from.id.0 as int, cid).len() <= s1.partners(from.id.0 as int, cid).len());
        }
        self.relate_pair(cid, from, to);
        proof {
            let o = old(self);
            let x = from.id.0 as int;
            let y = to.id.0 as int;
            let px = o.partners(x, cid);
            Self::lemma_only_relation_from_two(self, &s2, cid, x, y);
            Self::lemma_only_relation_trans(&s2, &s1, o, cid);
            Self::lemma_only_relation_trans(self, &s2, o, cid);
            assert forall|i: int|
                o.entities.slot_alive(i) && i != x && i != y && !px.contains(i as u32) && !(flipped == cid
                    && o.partners(y, cid).contains(i as u32)) implies #[trigger] self.same_entity(o, i) by {
                if px.len() > 0 {
                    assert(px.contains(px[0]));
                }
                assert(s1.same_entity(o, i));
                assert(s1.entities.slot_alive(i));
                if flipped == cid && x != y {
                    let t1 = s1.partners(y, cid);
                    if t1.len() > 0 {
                        assert(t1.contains(t1[0]));
                        o.lemma_flip_valid(cid);
                        assert(s1.entities.slot_alive(y));
                        if t1[0] == i as u32 {
                            assert(o.partners(y, cid).contains(i as u32));
                        }
                    }
                    assert(s2.same_entity(&s1, i));
                    Self::lemma_same_entity_trans(&s2, &s1, o, i);
                }
                assert(s2.same_entity(o, i));
                assert(self.same_entity(&s2, i));
                Self::lemma_same_entity_trans(self, &s2, o, i);
            }
            if o.relations_consistent() && px.len() <= 1 && (flipped != cid || o.partners(y, cid).len() <= 1) {
                assert(o.entities.slot_alive(x));
                assert(o.entities.slot_alive(y));
                if px.len() == 1 {
                    Self::lemma_single_removed(px);
                }
                assert(s1.partners(x, cid).len() == 0);
                assert(s2.partners(x, cid).len() == 0);
                if flipped == cid && x != y {
                    let t1 = s1.partners(y, cid);
                    assert(t1.len() <= 1);
                    if t1.len() == 1 {
                        Self::lemma_single_removed(t1);
                    }
                    assert(s2.partners(y, cid).len() == 0);
                }
                if x == y && flipped == cid {
                    assert(relate_step(relate_step(Seq::<u32>::empty(), to.id.0, true), from.id.0, true) =~= seq![to.id.0]);
                } else {
                    assert(relate_step(Seq::<u32>::empty(), to.id.0, true) =~= seq![to.id.0]);
                }
                assert forall|p: u32|
                    #[trigger] px.contains(p) && p != to.id.0 && p != from.id.0 implies !self.related(flipped, p, from.id.0) by {
                    assert(px[0] == p);
                    assert(o.partners_alive(x, cid));
                    assert(o.entities.slot_alive(p as int));
                    assert(!s1.related(flipped, p, from.id.0));
                    o.lemma_flip_valid(cid);
                    assert(s2.entities.slot_alive(p as int));
                    assert(!s2.partners(p as int, flipped).contains(from.id.0));
                    assert(self.same_entity(&s2, p as int));
                    Self::lemma_same_entity_partners(self, &s2, p as int, flipped);
                }
                if flipped == cid {
                    let py = o.partners(y, cid);
                    assert forall|q: u32|
                        #[trigger] py.contains(q) && q != to.id.0 && q != from.id.0 implies !self.related(cid, q, to.id.0) by {
                        assert(py[0] == q);
                        if px.len() == 1 && px[0] == to.id.0 {
                            broadcast use vstd::seq_lib::group_to_multiset_ensures;
                            assert(px.contains(to.id.0));
                            assert(px.to_multiset().count(to.id.0) > 0);
                            assert(o.partners(x as u32 as int, cid).to_multiset().count(to.id.0) == o.partners(
                                y,
                                cid.spec_flip_target(),
                            ).to_multiset().count(from.id.0));
                            assert(py.contains(from.id.0));
                            assert(false);
                        }
                        assert(o.partners_alive(y, cid));
                        assert(o.entities.slot_alive(q as int));
                        if x == y {
                            assert(px.contains(q));
                            assert(!s1.related(flipped, q, from.id.0));
                            assert(s2 == s1);
                        } else {
                            assert(s1.same_entity(o, y));
                            Self::lemma_same_entity_partners(&s1, o, y, cid);
                            assert(s1.partners(y, cid) == py);
                            assert(!s2.related(cid, q, to.id.0));
                        }
                        assert(self.same_entity(&s2, q as int));
                        Self::lemma_same_entity_partners(self, &s2, q as int, cid);
                    }
                }
            }
        }
    }

    /// A list of one id loses it.
    proof fn lemma_single_removed(s: Seq<u32>)
        requires
            s.len() == 1,
        ensures
            remove_all(s, s[0]).len() == 0,
    {
        lemma_remove_all_counts(s, s[0]);
        let r = remove_all(s, s[0]);
        if r.len() > 0 {
            assert(s.contains(r[0]));
            assert(r[0] == s[0]);
        }
    }

    /// No relation list of a living entity gained an entry or grew.
    pub open spec fn lists_shrunk(&self, old: &Self) -> bool {
        &&& forall|i: int, c: ComponentId|
            self.entities.slot_alive(i) && old.valid_cid(c) ==> (#[trigger] self.partners(i, c)).len()
                <= old.partners(i, c).len()
        &&& forall|i: int, c: ComponentId, y: u32|
            self.entities.slot_alive(i) && old.valid_cid(c) && !old.partners(i, c).contains(y)
                ==> !#[trigger] self.partners(i, c).contains(y)
    }

    /// Taking every copy of `x` out of the lists `(i, c)` for the listed pairs, and leaving
    /// every other list as it is, shrinks the lists.
    proof fn lemma_remove_shrinks(new: &Self, old: &Self, cid: ComponentId, x0: int, y0: int)
        requires
            old.wf(),
            old.valid_cid(cid),
            cid.spec_is_relation(),
            new.same_except2(old, x0, y0),
            forall|i: int, c: ComponentId|
                (i == x0 || i == y0) && old.valid_cid(c) && !(i == x0 && c == cid) && !(i == y0 && c
                    == cid.spec_flip_target()) ==> #[trigger] new.partners(i, c) == old.partners(i, c),
            x0 == y0 && cid.spec_flip_target() == cid ==> new.partners(x0, cid) == remove_all(
                remove_all(old.partners(x0, cid), y0 as u32),
                x0 as u32,
            ),
            !(x0 == y0 && cid.spec_flip_target() == cid) ==> {
                &&& new.partners(x0, cid) == remove_all(old.partners(x0, cid), y0 as u32)
                &&& new.partners(y0, cid.spec_flip_target()) == remove_all(
                    old.partners(y0, cid.spec_flip_target()),
                    x0 as u32,
                )
            },
        ensures
            new.lists_shrunk(old),
    {
        broadcast use vstd::seq_lib::group_to_multiset_ensures;

        let f = cid.spec_flip_target();
        assert forall|i: int, c: ComponentId|
            new.entities.slot_alive(i) && old.valid_cid(c) implies (#[trigger] new.partners(i, c)).len()
            <= old.partners(i, c).len() && forall|y: u32| !old.partners(i, c).contains(y) ==> !new.partners(
            i,
            c,
        ).contains(y) by {
            if i != x0 && i != y0 {
                Self::lemma_same_entity_partners(new, old, i, c);
            } else if x0 == y0 && f == cid && i == x0 && c == cid {
                let s = old.partners(x0, cid);
                lemma_remove_all_counts(s, y0 as u32);
                lemma_remove_all_counts(remove_all(s, y0 as u32), x0 as u32);
                assert forall|y: u32| !s.contains(y) implies !new.partners(i, c).contains(y) by {
                    if new.partners(i, c).contains(y) {
                        let k = choose|k: int| 0 <= k < new.partners(i, c).len() && new.partners(i, c)[k] == y;
                        let r1 = remove_all(s, y0 as u32);
                        assert(r1.contains(new.partners(i, c)[k]));
                        let k2 = choose|k2: int| 0 <= k2 < r1.len() && r1[k2] == y;
                        assert(s.contains(r1[k2]));
                    }
                }
            } else if i == x0 && c == cid {
                let s = old.partners(x0, cid);
                lemma_remove_all_counts(s, y0 as u32);
                assert forall|y: u32| !s.contains(y) implies !new.partners(i, c).contains(y) by {
                    if new.partners(i, c).contains(y) {
                        let k = choose|k: int| 0 <= k < new.partners(i, c).len() && new.partners(i, c)[k] == y;
                        assert(s.contains(new.partners(i, c)[k]));
                    }
                }
            } else if i == y0 && c == f {
                let s = old.partners(y0, f);
                lemma_remove_all_counts(s, x0 as u32);
                assert forall|y: u32| !s.contains(y) implies !new.partners(i, c).contains(y) by {
                    if new.partners(i, c).contains(y) {
                        let k = choose|k: int| 0 <= k < new.partners(i, c).len() && new.partners(i, c)[k] == y;
                        assert(s.contains(new.partners(i, c)[k]));
                    }
                }
            }
        }
    }

    /// Takes out the relation between `e` and its first partner in `cid` (an origin side),
    /// on both sides, when `e` has a partner there.
    fn drop_first_partner(&mut self, cid: ComponentId, e: Entity)
        requires
            old(self).wf(),
            old(self).alive(e),
            e.generation.0 % 2 == 1,
            old(self).valid_cid(cid),
            cid.spec_is_relation(),
            !cid.spec_is_target(),
            old(self).archetypes@.len() + 1 < BITSET_CAPACITY,
        ensures
            final(self).wf(),
            final(self).alive(e),
            final(self).archetypes@.len() <= old(self).archetypes@.len() + 2,
            forall|i: int| #[trigger] final(self).entities.slot_alive(i) <==> old(self).entities.slot_alive(i),
            forall|i: int| old(self).entities.slot_alive(i) ==> final(self).entities.gen_of(i) == old(self).entities.gen_of(i),
            old(self).partners(e.id.0 as int, cid).len() == 0 ==> *final(self) == *old(self),
            final(self).same_components(old(self)),
            final(self).entities.count() == old(self).entities.count(),
            final(self).lists_shrunk(old(self)),
            forall|i: int|
                old(self).entities.slot_alive(i) && i != e.id.0 && (old(self).partners(e.id.0 as int, cid).len()
                    == 0 || i != old(self).partners(e.id.0 as int, cid)[0]) ==> #[trigger] final(self).same_entity(
                    old(self),
                    i,
                ),
            old(self).partners(e.id.0 as int, cid).len() > 0 ==> {
                let p = old(self).partners(e.id.0 as int, cid)[0];
                &&& final(self).partners(e.id.0 as int, cid) == remove_all(old(self).partners(e.id.0 as int, cid), p)
                &&& old(self).entities.slot_alive(p as int) && p != e.id.0 ==> !final(self).related(
                    cid.spec_flip_target(),
                    p,
                    e.id.0,
                )
            },
            old(self).relations_consistent() ==> final(self).relations_consistent(),
            final(self).only_relation_changed(old(self), cid),
    {
        let ghost id = e.id.0 as int;
        proof {
            self.lemma_relation_sized(cid);
        }
        if !self.has_component(e, cid) {
            return;
        }
        let p = match self.get_component(e, cid) {
            ComponentValue::Relation(rv) => {
                if rv.is_empty() {
                    return;
                }
                rv.get(0)
            },
            ComponentValue::Data(_) => {
                return;
            },
        };
        if self.entities.is_slot_alive(EntityId(p)) {
            let pe = self.entities.get_from_id(EntityId(p));
            proof {
                assert(pe.generation.0 % 2 == 1);
            }
            self.remove_relation(cid, e, pe);
            proof {
                let o = old(self);
                Self::lemma_only_relation_from_two(self, o, cid, id, pe.id.0 as int);
                Self::lemma_remove_shrinks(self, o, cid, id, p as int);
                cid.lemma_flip_target();
                let px = o.partners(id, cid);
                lemma_remove_all_counts(px, p);
                if pe.id == e.id && cid.spec_flip_target() == cid {
                    lemma_remove_all_counts(remove_all(px, p), e.id.0);
                    assert(remove_all(remove_all(px, p), e.id.0) == remove_all(px, p));
                }
            }
        } else {
            proof {
                let o = old(self);
                assert(o.partners(id, cid)[0] == p);
                if o.relations_consistent() {
                    assert(o.partners_alive(id, cid));
                    assert(o.entities.slot_alive(o.partners(id, cid)[0] as int));
                    assert(false);
                }
            }
            self.unrelate_all(cid, e, p);
            proof {
                let o = old(self);
                cid.lemma_flip_target();
                assert forall|i: int, c: ComponentId|
                    o.entities.slot_alive(i) && c != cid && c != cid.spec_flip_target() implies (
                    #[trigger] self.entity_key(i).contains(c) <==> o.entity_key(i).contains(c)) by {
                    if i != id {
                        assert(self.same_entity(o, i));
                    }
                }
                assert forall|i: int, c: ComponentId|
                    o.entities.slot_alive(i) && #[trigger] o.entity_key(i).contains(c) && o.sized(c) && c != cid
                        && c != cid.spec_flip_target() implies self.entity_value(i, c) == o.entity_value(i, c) by {
                    if i != id {
                        assert(self.same_entity(o, i));
                    }
                }
                assert forall|i: int, c: ComponentId|
                    self.entities.slot_alive(i) && o.valid_cid(c) implies (#[trigger] self.partners(i, c)).len()
                    <= o.partners(i, c).len() && forall|y: u32| !o.partners(i, c).contains(y) ==> !self.partners(
                    i,
                    c,
                ).contains(y) by {
                    if i != id {
                        assert(self.same_entity(o, i));
                        Self::lemma_same_entity_partners(self, o, i, c);
                    } else if c != cid {
                        if o.entity_key(i).contains(c) && o.sized(c) {
                            assert(self.entity_value(i, c) == o.entity_value(i, c));
                        }
                        Self::lemma_partners_same(self, o, i, c);
                    } else {
                        let sq = o.partners(id, cid);
                        lemma_remove_all_counts(sq, p);
                        assert forall|y: u32| !sq.contains(y) implies !self.partners(i, c).contains(y) by {
                            if self.partners(i, c).contains(y) {
                                let k = choose|k: int| 0 <= k < self.partners(i, c).len() && self.partners(i, c)[k] == y;
                                assert(sq.contains(self.partners(i, c)[k]));
                            }
                        }
                    }
                }
                assert(self.entities.slot_alive(p as int) == old(self).entities.slot_alive(p as int)) by {
                    if old(self).entities.slot_alive(p as int) {
                        assert(self.same_entity(old(self), p as int));
                    }
                }
            }
        }
    }

    /// Takes `to` out of the partners of `from` in the relation `cid` (given by its origin
    /// side) and `from` out of the partners of `to` in the target side, every occurrence, so
    /// that the relation is gone; removing it again changes nothing. A side whose partners
    /// run out is removed from its entity.
    pub fn remove_relation(&mut self, cid: ComponentId, from: Entity, to: Entity)
        requires
            old(self).wf(),
            old(self).alive(from),
            old(self).alive(to),
            from.generation.0 % 2 == 1,
            to.generation.0 % 2 == 1,
            old(self).valid_cid(cid),
            cid.spec_is_relation(),
            !cid.spec_is_target(),
            old(self).archetypes@.len() + 1 < BITSET_CAPACITY,
        ensures
            final(self).wf(),
            final(self).alive(from),
            final(self).alive(to),
            final(self).same_except2(old(self), from.id.0 as int, to.id.0 as int),
            final(self).archetypes@.len() <= old(self).archetypes@.len() + 2,
            forall|i: int, c: ComponentId|
                (i == from.id.0 || i == to.id.0) && c != cid && c != cid.spec_flip_target() ==> (
                #[trigger] final(self).entity_key(i).contains(c) <==> old(self).entity_key(i).contains(c)),
            forall|i: int, c: ComponentId|
                (i == from.id.0 || i == to.id.0) && #[trigger] old(self).entity_key(i).contains(c)
                    && old(self).sized(c) && c != cid && c != cid.spec_flip_target() ==> final(self).entity_value(i, c) == old(self).entity_value(i, c),
            forall|i: int, c: ComponentId|
                (i == from.id.0 || i == to.id.0) && old(self).valid_cid(c) && c != cid && c
                    != cid.spec_flip_target() ==> #[trigger] final(self).partners(i, c) == old(self).partners(i, c),
            from.id == to.id && cid.spec_flip_target() == cid ==> final(self).partners(
                from.id.0 as int,
                cid,
            ) == remove_all(remove_all(old(self).partners(from.id.0 as int, cid), to.id.0), from.id.0),
            !(from.id == to.id && cid.spec_flip_target() == cid) ==> {
                &&& final(self).partners(from.id.0 as int, cid) == remove_all(
                    old(self).partners(from.id.0 as int, cid),
                    to.id.0,
                )
                &&& final(self).partners(to.id.0 as int, cid.spec_flip_target()) == remove_all(
                    old(self).partners(to.id.0 as int, cid.spec_flip_target()),
                    from.id.0,
                )
            },
            from.id != to.id && cid.spec_flip_target() != cid ==> final(self).partners(
                from.id.0 as int,
                cid.spec_flip_target(),
            ) == old(self).partners(from.id.0 as int, cid.spec_flip_target()) && final(self).partners(
                to.id.0 as int,
                cid,
            ) == old(self).partners(to.id.0 as int, cid),
            !final(self).related(cid, from.id.0, to.id.0),
            !final(self).related(cid.spec_flip_target(), to.id.0, from.id.0),
            final(self).related_elsewhere_same(old(self), cid, from.id.0, to.id.0),
            old(self).relations_consistent() ==> final(self).relations_consistent(),
            forall|i: int, c: ComponentId|
                (i == from.id.0 || i == to.id.0) && (c == cid || c == cid.spec_flip_target())
                    ==> (#[trigger] final(self).entity_key(i).contains(c) <==> final(self).partners(
                    i,
                    c,
                ).len() > 0 || (old(self).entity_key(i).contains(c) && !(i == from.id.0 && c == cid)
                    && !(i == to.id.0 && c == cid.spec_flip_target()))),
    {
        let ghost x = from.id.0 as int;
        let ghost y = to.id.0 as int;
        let flipped = cid.flip_target();
        proof {
            cid.lemma_flip_target();
        }
        self.unrelate_all(cid, from, to.id.0);
        let ghost mid = *self;
        proof {
            let o = old(self);
            assert(self.entities.slot_alive(y));
            assert(self.alive(to));
            o.lemma_flip_valid(cid);
            if x != y {
                assert(mid.same_entity(o, y));
                Self::lemma_partners_same(&mid, o, y, flipped);
            } else if flipped != cid {
                Self::lemma_partners_same(&mid, o, y, flipped);
            }
        }
        self.unrelate_all(flipped, to, from.id.0);
        proof {
            let o = old(self);
            Self::lemma_same_except2(self, &mid, o, x, y);
            assert forall|i: int, c: ComponentId|
                (i == x || i == y) && c != cid && c != flipped implies (#[trigger] self.entity_key(i).contains(c)
                <==> o.entity_key(i).contains(c)) by {
                if i == x {
                    if x != y {
                        assert(self.same_entity(&mid, x));
                    }
                    assert(mid.entity_key(x).contains(c) <==> o.entity_key(x).contains(c));
                } else {
                    if x != y {
                        assert(mid.same_entity(o, y));
                    }
                    assert(mid.entity_key(y).contains(c) <==> o.entity_key(y).contains(c));
                }
            }
            assert forall|i: int, c: ComponentId|
                (i == x || i == y) && #[trigger] o.entity_key(i).contains(c) && o.sized(c) && c != cid && c
                    != flipped implies self.entity_value(i, c) == o.entity_value(i, c) by {
                o.lemma_key_valid(i, c);
                assert(mid.sized(c));
                if i == x {
                    assert(mid.entity_value(x, c) == o.entity_value(x, c));
                    assert(mid.entity_key(x).contains(c));
                    if x != y {
                        assert(self.same_entity(&mid, x));
                    }
                } else {
                    assert(mid.same_entity(o, y));
                    assert(mid.entity_key(y).contains(c));
                }
            }
            assert forall|i: int, c: ComponentId|
                (i == x || i == y) && o.valid_cid(c) && c != cid && c != flipped implies #[trigger] self.partners(
                i,
                c,
            ) == o.partners(i, c) by {
                assert(mid.sized(c) == o.sized(c));
                assert(self.sized(c) == o.sized(c));
                if o.entity_key(i).contains(c) && o.sized(c) {
                    assert(self.entity_value(i, c) == o.entity_value(i, c));
                }
                assert(self.entity_key(i).contains(c) == o.entity_key(i).contains(c));
                Self::lemma_partners_same(self, o, i, c);
            }
            if !(x == y && flipped == cid) {
                if x != y {
                    assert(self.same_entity(&mid, x));
                }
                assert(mid.valid_cid(cid));
                Self::lemma_partners_same(self, &mid, x, cid);
            }
            if x != y && flipped != cid {
                assert(o.valid_cid(flipped));
                Self::lemma_partners_same(&mid, o, x, flipped);
                assert(self.same_entity(&mid, x));
                Self::lemma_same_entity_partners(self, &mid, x, flipped);
                assert(mid.same_entity(o, y));
                Self::lemma_same_entity_partners(&mid, o, y, cid);
                assert(mid.valid_cid(cid));
                Self::lemma_partners_same(self, &mid, y, cid);
            }
            {
                let px = o.partners(x, cid);
                lemma_remove_all_counts(px, to.id.0);
                lemma_remove_all_counts(remove_all(px, to.id.0), from.id.0);
                lemma_remove_all_counts(o.partners(y, flipped), from.id.0);
            }
            if o.relations_consistent() {
                Self::lemma_remove_all_consistent(self, o, cid, from.id.0, to.id.0);
            }
            {
                let px = o.partners(x, cid);
                let pt = o.partners(y, flipped);
                assert forall|z: u32| z != to.id.0 implies (#[trigger] self.partners(x, cid).contains(z)
                    <==> px.contains(z)) by {
                    lemma_remove_all_contains(px, to.id.0, z);
                    if x == y {
                        lemma_remove_all_contains(remove_all(px, to.id.0), from.id.0, z);
                    }
                }
                assert forall|z: u32| z != from.id.0 implies (#[trigger] self.partners(y, flipped).contains(z)
                    <==> pt.contains(z)) by {
                    lemma_remove_all_contains(pt, from.id.0, z);
                    if x == y {
                        lemma_remove_all_contains(px, to.id.0, z);
                        lemma_remove_all_contains(remove_all(px, to.id.0), from.id.0, z);
                    }
                }
                Self::lemma_related_frame(self, o, cid, x, y);
            }
            assert forall|i: int, c: ComponentId|
                (i == x || i == y) && (c == cid || c == flipped) implies (#[trigger] self.entity_key(
                i,
            ).contains(c) <==> self.partners(i, c).len() > 0 || (o.entity_key(i).contains(c) && !(i
                == x && c == cid) && !(i == y && c == flipped))) by {
                assert(mid.valid_cid(c));
                Self::lemma_relation_sized_pub(self, c);
                if x != y {
                    assert(self.same_entity(&mid, x));
                    assert(mid.same_entity(o, y));
                }
            }
        }
    }
}

/// What a push adds to the elements of a sequence.
proof fn lemma_push_contains(s: Seq<u32>, x: u32, y: u32)
    ensures
        s.push(x).contains(y) <==> (s.contains(y) || y == x),
{
    if s.push(x).contains(y) {
        let i = choose|i: int| 0 <= i < s.push(x).len() && s.push(x)[i] == y;
        if i < s.len() {
            assert(s[i] == y);
        }
    }
    if s.contains(y) {
        let i = choose|i: int| 0 <= i < s.len() && s[i] == y;
        assert(s.push(x)[i] == y);
    }
    if y == x {
        assert(s.push(x)[s.len() as int] == y);
    }
}

/// What dropping the last element leaves of the elements of a sequence.
proof fn lemma_drop_last_contains(s: Seq<u32>, y: u32)
    requires
        s.len() > 0,
    ensures
        s.drop_last().contains(y) ==> s.contains(y),
        s.contains(y) && y != s.last() ==> s.drop_last().contains(y),
{
    if s.drop_last().contains(y) {
        let i = choose|i: int| 0 <= i < s.drop_last().len() && s.drop_last()[i] == y;
        assert(s[i] == y);
    }
    if s.contains(y) && y != s.last() {
        let i = choose|i: int| 0 <= i < s.len() && s[i] == y;
        assert(i != s.len() - 1);
        assert(s.drop_last()[i] == y);
    }
}

impl<V> Bookkeeping<V> {
    /// Slot `x` is alive and lists `y` among its partners in the relation side `cid`.
    pub open spec fn related(&self, cid: ComponentId, x: u32, y: u32) -> bool {
        self.entities.slot_alive(x as int) && self.partners(x as int, cid).contains(y)
    }

    /// `y` is reached from `x` in `n + 1` steps along the relation side `cid`.
    pub open spec fn reaches(&self, cid: ComponentId, x: u32, y: u32, n: nat) -> bool
        decreases n,
    {
        if n == 0 {
            self.related(cid, x, y)
        } else {
            exists|z: u32| #[trigger] self.related(cid, x, z) && self.reaches(cid, z, y, (n - 1) as nat)
        }
    }

    /// A step at the end of a path makes a path one longer.
    proof fn lemma_reaches_append(&self, cid: ComponentId, x: u32, y: u32, w: u32, n: nat)
        requires
            self.reaches(cid, x, y, n),
            self.related(cid, y, w),
        ensures
            self.reaches(cid, x, w, n + 1),
        decreases n,
    {
        if n == 0 {
            assert(self.reaches(cid, y, w, 0));
        } else {
            let z = choose|z: u32| #[trigger] self.related(cid, x, z) && self.reaches(cid, z, y, (n - 1) as nat);
            self.lemma_reaches_append(cid, z, y, w, (n - 1) as nat);
        }
    }

    /// From a set that is closed under the relation and does not relate to `to`, `to`
    /// cannot be reached.
    proof fn lemma_closed_unreachable(&self, cid: ComponentId, vis: Set<u32>, to: u32, y: u32, n: nat)
        requires
            vis.contains(y),
            forall|a: u32, b: u32| vis.contains(a) && #[trigger] self.related(cid, a, b) ==> vis.contains(b),
            forall|a: u32| vis.contains(a) ==> !#[trigger] self.related(cid, a, to),
        ensures
            !self.reaches(cid, y, to, n),
        decreases n,
    {
        if n > 0 {
            assert forall|z: u32| #[trigger] self.related(cid, y, z) implies !self.reaches(cid, z, to, (n - 1) as nat) by {
                self.lemma_closed_unreachable(cid, vis, to, z, (n - 1) as nat);
            }
        }
    }

    /// Whether `from` is related to `to` through the relation `cid` (given by its origin side).
    /// For a transitive relation, a chain of relations from `from` to `to` counts too; the
    /// search goes through the partners of living entities only, passing over an id whose
    /// slot is not alive. A dead `from` has no relations.
    pub fn has_relation(&self, cid: ComponentId, from: Entity, to: Entity) -> (r: bool)
        requires
            self.wf(),
            self.valid_cid(cid),
            cid.spec_is_relation(),
            from.generation.0 % 2 == 1,
        ensures
            r == (self.alive(from) && if cid.spec_is_transitive() {
                exists|n: nat| self.reaches(cid, from.id.0, to.id.0, n)
            } else {
                self.related(cid, from.id.0, to.id.0)
            }),
    {
        broadcast use vstd::std_specs::hash::group_hash_axioms;

        let ghost fid = from.id.0;
        let ghost tid = to.id.0;
        if !self.has_component(from, cid) {
            proof {
                if self.alive(from) {
                    assert(!self.partners(fid as int, cid).contains(tid));
                    assert forall|n: nat| !self.reaches(cid, fid, tid, n) by {
                        if n > 0 {
                            assert forall|z: u32| !#[trigger] self.related(cid, fid, z) by {}
                        }
                    }
                }
            }
            return false;
        }
        proof {
            assert(self.entities.slot_alive(fid as int));
            self.lemma_relation_sized(cid);
            self.lemma_entry(fid as int, cid);
        }
        let rv = match self.get_component(from, cid) {
            ComponentValue::Relation(rv) => rv,
            ComponentValue::Data(_) => {
                proof {
                    assert(false);
                }
                return false;
            },
        };
        if rv.contains(to.id.0) {
            proof {
                assert(self.related(cid, fid, tid));
                assert(self.reaches(cid, fid, tid, 0));
            }
            return true;
        }
        if !cid.is_transitive() {
            return false;
        }
        let mut visited: HashSet<u32> = HashSet::new();
        let mut work: Vec<u32> = Vec::new();
        let ghost mut vis: Set<int> = Set::empty();
        let len = rv.len();
        let mut k: u32 = 0;
        while k < len
            invariant
                self.wf(),
                rv.wf(),
                len == rv@.len(),
                rv@ == self.partners(fid as int, cid),
                self.entities.slot_alive(fid as int),
                0 <= k <= len,
                forall|y: u32| #[trigger] visited@.contains(y) <==> vis.contains(y as int),
                vis.finite(),
                forall|i: int| #[trigger] vis.contains(i) ==> 0 <= i < 0x1_0000_0000,
                forall|y: u32| #[trigger] work@.contains(y) ==> visited@.contains(y),
                forall|y: u32| #[trigger] visited@.contains(y) ==> exists|n: nat| self.reaches(cid, fid, y, n),
                forall|y: u32| #[trigger] visited@.contains(y) ==> work@.contains(y),
                forall|j: int| 0 <= j < k ==> #[trigger] visited@.contains(rv@[j]),
            decreases len - k,
        {
            let id = rv.get(k as usize);
            proof {
                assert(rv@.contains(id));
                assert(self.related(cid, fid, id));
                assert(self.reaches(cid, fid, id, 0));
            }
            if !visited.contains(&id) {
                let ghost wp = work@;
                work.push(id);
                visited.insert(id);
                proof {
                    vis = vis.insert(id as int);
                    assert forall|y: u32| #[trigger] work@.contains(y) <==> (wp.contains(y) || y == id) by {
                        lemma_push_contains(wp, id, y);
                    }
                }
            }
            k += 1;
        }
        proof {
            assert forall|z: u32| #[trigger] self.related(cid, fid, z) implies visited@.contains(z) by {
                let j = choose|j: int| 0 <= j < rv@.len() && rv@[j] == z;
            }
        }
        while work.len() > 0
            invariant
                self.wf(),
                fid == from.id.0,
                tid == to.id.0,
                self.alive(from),
                cid.spec_is_transitive(),
                self.valid_cid(cid),
                cid.spec_is_relation(),
                self.entities.slot_alive(fid as int),
                !self.related(cid, fid, tid),
                forall|z: u32| #[trigger] self.related(cid, fid, z) ==> visited@.contains(z),
                forall|y: u32| #[trigger] visited@.contains(y) <==> vis.contains(y as int),
                vis.finite(),
                forall|i: int| #[trigger] vis.contains(i) ==> 0 <= i < 0x1_0000_0000,
                forall|y: u32| #[trigger] work@.contains(y) ==> visited@.contains(y),
                forall|y: u32| #[trigger] visited@.contains(y) ==> exists|n: nat| self.reaches(cid, fid, y, n),
                forall|y: u32|
                    #[trigger] visited@.contains(y) && !work@.contains(y) ==> !self.related(cid, y, tid)
                        && forall|z: u32| #[trigger] self.related(cid, y, z) ==> visited@.contains(z),
            decreases 0x1_0000_0000 - vis.len(), work@.len(),
        {
            proof {
                lemma_int_range(0, 0x1_0000_0000);
                assert(vis.subset_of(set_int_range(0, 0x1_0000_0000)));
                lemma_len_subset(vis, set_int_range(0, 0x1_0000_0000));
            }
            let ghost w0 = work@;
            let ghost v0 = visited@;
            let ghost vis0 = vis;
            let current = work.pop().unwrap();
            proof {
                assert(w0[w0.len() - 1] == current);
                assert(w0.contains(current));
                assert(work@ == w0.drop_last());
                assert forall|y: u32| #[trigger] work@.contains(y) implies w0.contains(y) by {
                    lemma_drop_last_contains(w0, y);
                }
            }
            let ghost nc = choose|n: nat| self.reaches(cid, fid, current, n);
            if self.entities.is_slot_alive(EntityId(current)) {
                match self.get_component_opt_unchecked(EntityId(current), cid) {
                    Some(ComponentValue::Relation(rv2)) => {
                        proof {
                            self.lemma_relation_sized(cid);
                            assert(self.entity_key(current as int).contains(cid));
                            assert(rv2@ == self.partners(current as int, cid));
                        }
                        let found = rv2.contains(to.id.0);
                        proof {
                            assert(rv2.wf());
                            assert(found == rv2@.contains(to.id.0));
                        }
                        if found {
                            proof {
                                assert(rv2@.contains(tid));
                                assert(self.partners(current as int, cid).contains(tid));
                                assert(self.entities.slot_alive(current as int));
                                assert(self.related(cid, current, tid));
                                self.lemma_reaches_append(cid, fid, current, tid, nc);
                                assert(self.reaches(cid, fid, tid, nc + 1));
                            }
                            return true;
                        }
                        let len2 = rv2.len();
                        let mut k2: u32 = 0;
                        while k2 < len2
                            invariant
                                self.wf(),
                                rv2.wf(),
                                len2 == rv2@.len(),
                                rv2@ == self.partners(current as int, cid),
                                self.entities.slot_alive(current as int),
                                self.reaches(cid, fid, current, nc),
                                0 <= k2 <= len2,
                                forall|y: u32| #[trigger] visited@.contains(y) <==> vis.contains(y as int),
                                vis.finite(),
                                forall|i: int| #[trigger] vis.contains(i) ==> 0 <= i < 0x1_0000_0000,
                                vis0.subset_of(vis),
                                vis.len() == vis0.len() + (work@.len() - w0.len() + 1),
                                work@.len() >= w0.len() - 1,
                                forall|y: u32| #[trigger] work@.contains(y) ==> visited@.contains(y),
                                forall|y: u32|
                                    #[trigger] visited@.contains(y) ==> exists|n: nat| self.reaches(cid, fid, y, n),
                                forall|y: u32|
                                    #[trigger] v0.contains(y) && !w0.contains(y) ==> visited@.contains(y) && !work@.contains(y),
                                forall|y: u32| #[trigger] v0.contains(y) ==> visited@.contains(y),
                                forall|y: u32| #[trigger] w0.drop_last().contains(y) ==> work@.contains(y),
                                forall|y: u32| #[trigger] visited@.contains(y) && !v0.contains(y) ==> work@.contains(y),
                                forall|j: int| 0 <= j < k2 ==> #[trigger] visited@.contains(rv2@[j]),
                            decreases len2 - k2,
                        {
                            let id = rv2.get(k2 as usize);
                            proof {
                                assert(rv2@.contains(id));
                                assert(self.related(cid, current, id));
                                self.lemma_reaches_append(cid, fid, current, id, nc);
                            }
                            if !visited.contains(&id) {
                                let ghost wp = work@;
                                work.push(id);
                                visited.insert(id);
                                proof {
                                    vis = vis.insert(id as int);
                                    assert forall|y: u32| #[trigger] work@.contains(y) <==> (wp.contains(y) || y == id) by {
                                        lemma_push_contains(wp, id, y);
                                    }
                                }
                            }
                            k2 += 1;
                        }
                        proof {
                            assert forall|z: u32| #[trigger] self.related(cid, current, z) implies visited@.contains(z) by {
                                let j = choose|j: int| 0 <= j < rv2@.len() && rv2@[j] == z;
                            }
                            assert(!self.related(cid, current, tid));
                        }
                    },
                    Some(ComponentValue::Data(_)) => {
                        proof {
                            self.lemma_relation_sized(cid);
                            self.lemma_entry(current as int, cid);
                            assert(false);
                        }
                    },
                    None => {
                        proof {
                            self.lemma_relation_sized(cid);
                            assert forall|z: u32| !#[trigger] self.related(cid, current, z) by {}
                        }
                    },
                }
            } else {
                proof {
                    assert forall|z: u32| !#[trigger] self.related(cid, current, z) by {}
                }
            }
            proof {
                lemma_int_range(0, 0x1_0000_0000);
                assert(vis.subset_of(set_int_range(0, 0x1_0000_0000)));
                lemma_len_subset(vis, set_int_range(0, 0x1_0000_0000));
                assert(vis.len() > vis0.len() || (vis.len() == vis0.len() && work@.len() < w0.len()));
                assert forall|y: u32|
                    #[trigger] visited@.contains(y) && !work@.contains(y) implies !self.related(cid, y, tid)
                        && forall|z: u32| #[trigger] self.related(cid, y, z) ==> visited@.contains(z) by {
                    lemma_drop_last_contains(w0, y);
                    if y != current {
                        if v0.contains(y) {
                            if w0.contains(y) {
                                assert(w0.drop_last().contains(y));
                                assert(work@.contains(y));
                            }
                            assert forall|z: u32| #[trigger] self.related(cid, y, z) implies visited@.contains(z) by {
                                assert(v0.contains(z));
                            }
                        }
                    }
                }
            }
        }
        proof {
            assert forall|n: nat| !self.reaches(cid, fid, tid, n) by {
                let v = visited@;
                if n > 0 {
                    assert forall|z: u32| #[trigger] self.related(cid, fid, z) implies !self.reaches(cid, z, tid, (n - 1) as nat) by {
                        self.lemma_closed_unreachable(cid, v, tid, z, (n - 1) as nat);
                    }
                }
            }
        }
        false
    }
}

impl<V> Bookkeeping<V> {
    /// The entity in slot `i` paired with each of its partners in `cid`, in the order listed.
    pub open spec fn partner_pairs(&self, i: int, cid: ComponentId) -> Seq<(Entity, Entity)> {
        self.partners(i, cid).map_values(|p: u32| (self.entity_at(i), self.entity_at(p as int)))
    }

    /// The pairs of the entities in `es`, entity by entity.
    pub open spec fn pairs_of(&self, es: Seq<EntityId>, cid: ComponentId) -> Seq<(Entity, Entity)>
        decreases es.len(),
    {
        if es.len() == 0 {
            Seq::empty()
        } else {
            self.pairs_of(es.drop_last(), cid) + self.partner_pairs(es.last().0 as int, cid)
        }
    }
}

impl<V> Bookkeeping<V> {
    /// The living entities that have the component `cid` (not a relation target side),
    /// archetype by archetype in ascending order, each once.
    pub fn entities_with(&self, cid: ComponentId) -> (r: Vec<EntityId>)
        requires
            self.wf(),
            self.valid_cid(cid),
            !cid.spec_is_target(),
        ensures
            forall|i: int| 0 <= i < r@.len() ==> #[trigger] self.entities.slot_alive(r@[i].0 as int),
            forall|i: int, j: int| 0 <= i < j < r@.len() ==> r@[i] != r@[j],
            forall|x: u32|
                #[trigger] r@.contains(EntityId(x)) <==> (self.entities.slot_alive(x as int)
                    && self.entity_key(x as int).contains(cid)),
    {
        let c = &self.components[cid.as_index()];
        let aids = c.get_archetypes();
        let ghost comp = self.components@[cid.spec_id() as int];
        let mut r: Vec<EntityId> = Vec::new();
        let mut j: usize = 0;
        while j < aids.len()
            invariant
                self.wf(),
                self.valid_cid(cid),
                !cid.spec_is_target(),
                comp == self.components@[cid.spec_id() as int],
                forall|i: int, k: int| 0 <= i < k < aids@.len() ==> aids@[i].0 < aids@[k].0,
                forall|i: int| 0 <= i < aids@.len() ==> comp.origin_set().contains(#[trigger] aids@[i].0 as usize),
                forall|a: usize| #[trigger] comp.origin_set().contains(a) ==> exists|i: int|
                    0 <= i < aids@.len() && aids@[i].0 == a,
                0 <= j <= aids@.len(),
                forall|i: int| 0 <= i < r@.len() ==> #[trigger] self.entities.slot_alive(r@[i].0 as int),
                forall|i: int| 0 <= i < r@.len() ==> self.entity_key(#[trigger] r@[i].0 as int).contains(cid),
                forall|i: int| 0 <= i < r@.len() ==> exists|k: int| 0 <= k < j && self.slot_arch(#[trigger] r@[i].0 as int) == aids@[k].0,
                forall|i: int, k: int| 0 <= i < k < r@.len() ==> r@[i] != r@[k],
                forall|x: u32|
                    self.entities.slot_alive(x as int) && (exists|k: int| 0 <= k < j && self.slot_arch(x as int) == aids@[k].0)
                        ==> #[trigger] r@.contains(EntityId(x)),
            decreases aids@.len() - j,
        {
            let aid = aids[j];
            proof {
                assert(comp.origin_set().contains(aids@[j as int].0 as usize));
                assert(comp.set_for(cid).contains(aid.0 as usize));
                assert(aid.0 < self.archetypes@.len());
                assert(self.exact_archetype@[aid.0 as int]@.contains(cid));
            }
            let a = &self.archetypes[aid.as_index()];
            let ghost r0 = r@;
            proof {
                assert forall|i: int| 0 <= i < r0.len() implies self.slot_arch(#[trigger] r0[i].0 as int) < aid.0 by {
                    assert(self.slot_arch(r@[i].0 as int) == self.slot_arch(r0[i].0 as int));
                    let k = choose|k: int| 0 <= k < j && self.slot_arch(r@[i].0 as int) == aids@[k].0;
                    assert(aids@[k].0 < aids@[j as int].0);
                }
            }
            let mut q: usize = 0;
            while q < a.entities.len()
                invariant
                    self.wf(),
                    *a == self.archetypes@[aid.0 as int],
                    aid.0 < self.archetypes@.len(),
                    self.key(aid.0 as int).contains(cid),
                    forall|i: int, k: int| 0 <= i < k < aids@.len() ==> aids@[i].0 < aids@[k].0,
                    aid == aids@[j as int],
                    0 <= j < aids@.len(),
                    0 <= q <= a.entities@.len(),
                    r@.len() == r0.len() + q,
                    forall|i: int| 0 <= i < r0.len() ==> #[trigger] r@[i] == r0[i],
                    forall|i: int| 0 <= i < q ==> #[trigger] r@[r0.len() + i] == a.entities@[i],
                    forall|i: int| 0 <= i < r0.len() ==> self.slot_arch(#[trigger] r0[i].0 as int) < aid.0,
                    forall|i: int| 0 <= i < r@.len() ==> #[trigger] self.entities.slot_alive(r@[i].0 as int),
                    forall|i: int| 0 <= i < r@.len() ==> self.entity_key(#[trigger] r@[i].0 as int).contains(cid),
                    forall|i: int| 0 <= i < r@.len() ==> exists|k: int| 0 <= k <= j && self.slot_arch(#[trigger] r@[i].0 as int) == aids@[k].0,
                    forall|i: int, k: int| 0 <= i < k < r@.len() ==> r@[i] != r@[k],
                decreases a.entities@.len() - q,
            {
                let eid = a.entities[q];
                proof {
                    let i = eid.0 as int;
                    assert(self.entities.slot_alive(i));
                    assert(self.slot_arch(i) == aid.0 && self.slot_row(i) == q);
                    assert forall|p: int| 0 <= p < r@.len() implies r@[p] != eid by {
                        if p < r0.len() {
                            assert(self.slot_arch(r0[p].0 as int) < aid.0);
                        } else {
                            let p2 = p - r0.len();
                            assert(r@[r0.len() + p2] == a.entities@[p2]);
                            assert(r@[p] == a.entities@[p2]);
                            assert(self.slot_row(a.entities@[p2].0 as int) == p2);
                        }
                    }
                }
                r.push(eid);
                q += 1;
            }
            proof {
                assert forall|x: u32|
                    self.entities.slot_alive(x as int) && (exists|k: int| 0 <= k < j + 1 && self.slot_arch(x as int) == aids@[k].0)
                        implies #[trigger] r@.contains(EntityId(x)) by {
                    let k = choose|k: int| 0 <= k < j + 1 && self.slot_arch(x as int) == aids@[k].0;
                    if k < j {
                        assert(r0.contains(EntityId(x)));
                        let p = choose|p: int| 0 <= p < r0.len() && r0[p] == EntityId(x);
                        assert(r@[p] == EntityId(x));
                    } else {
                        let row = self.slot_row(x as int);
                        assert(a.entities@[row].0 == x);
                        assert(r@[r0.len() + row] == a.entities@[row]);
                    }
                }
            }
            j += 1;
        }
        proof {
            assert forall|x: u32|
                #[trigger] r@.contains(EntityId(x)) <==> (self.entities.slot_alive(x as int)
                    && self.entity_key(x as int).contains(cid)) by {
                if r@.contains(EntityId(x)) {
                    let p = choose|p: int| 0 <= p < r@.len() && r@[p] == EntityId(x);
                    assert(self.entities.slot_alive(r@[p].0 as int));
                    assert(self.entity_key(r@[p].0 as int).contains(cid));
                }
                if self.entities.slot_alive(x as int) && self.entity_key(x as int).contains(cid) {
                    let a = self.slot_arch(x as int);
                    assert(comp.set_for(cid).contains(a as usize));
                    assert(comp.origin_set().contains(a as usize));
                    let k = choose|k: int| 0 <= k < aids@.len() && aids@[k].0 == a as usize;
                    assert(exists|k: int| 0 <= k < aids@.len() && self.slot_arch(x as int) == aids@[k].0);
                }
            }
        }
        r
    }
}

impl<V> Bookkeeping<V> {
    /// The partners of slot `i` in `cid` are all living slots.
    pub open spec fn partners_alive(&self, i: int, cid: ComponentId) -> bool {
        forall|k: int|
            0 <= k < self.partners(i, cid).len() ==> self.entities.slot_alive(
                #[trigger] self.partners(i, cid)[k] as int,
            )
    }

    /// The entity in the living slot `i`.
    pub open spec fn entity_at(&self, i: int) -> Entity {
        Entity { generation: EntityGeneration(self.entities.gen_of(i)), id: EntityId(i as u32) }
    }

    /// The entities that `e` is directly related to through the relation side `cid`
    /// (transitive relations are not followed); `None` when `e` is dead or does not have
    /// that side. The partners of a living `e` are alive themselves.
    pub fn relation_partners(&self, cid: ComponentId, e: Entity) -> (r: Option<Vec<Entity>>)
        requires
            self.wf(),
            self.valid_cid(cid),
            cid.spec_is_relation(),
            e.generation.0 % 2 == 1,
            self.alive(e) ==> self.partners_alive(e.id.0 as int, cid),
        ensures
            r is Some == (self.alive(e) && self.entity_key(e.id.0 as int).contains(cid)),
            r matches Some(v) ==> {
                &&& v@.len() == self.partners(e.id.0 as int, cid).len()
                &&& forall|k: int|
                    0 <= k < v@.len() ==> #[trigger] v@[k] == self.entity_at(
                        self.partners(e.id.0 as int, cid)[k] as int,
                    )
            },
    {
        if !self.has_component(e, cid) {
            return None;
        }
        let ghost id = e.id.0 as int;
        proof {
            assert(self.entities.slot_alive(id));
            self.lemma_relation_sized(cid);
            self.lemma_entry(id, cid);
        }
        match self.get_component(e, cid) {
            ComponentValue::Relation(rv) => {
                let mut v: Vec<Entity> = Vec::new();
                let len = rv.len();
                let mut k: u32 = 0;
                while k < len
                    invariant
                        self.wf(),
                        rv.wf(),
                        len == rv@.len(),
                        rv@ == self.partners(id, cid),
                        self.partners_alive(id, cid),
                        0 <= k <= len,
                        v@.len() == k,
                        forall|j: int| 0 <= j < k ==> #[trigger] v@[j] == self.entity_at(rv@[j] as int),
                    decreases len - k,
                {
                    let y = rv.get(k as usize);
                    proof {
                        assert(self.entities.slot_alive(self.partners(id, cid)[k as int] as int));
                    }
                    let other = self.entities.get_from_id(EntityId(y));
                    v.push(other);
                    k += 1;
                }
                Some(v)
            },
            ComponentValue::Data(_) => {
                proof {
                    assert(false);
                }
                None
            },
        }
    }

    /// All pairs of entities directly related through the relation `cid` (given by its origin
    /// side): an origin with each of its partners in the order listed, origin by origin, each
    /// living origin once (which origin comes first is not stated). The partners of living
    /// entities are alive themselves.
    pub fn relation_pairs(&self, cid: ComponentId) -> (r: Vec<(Entity, Entity)>)
        requires
            self.wf(),
            self.valid_cid(cid),
            cid.spec_is_relation(),
            !cid.spec_is_target(),
            forall|i: int| #[trigger] self.entities.slot_alive(i) ==> self.partners_alive(i, cid),
        ensures
            forall|p: int|
                0 <= p < r@.len() ==> {
                    let (a, b) = #[trigger] r@[p];
                    &&& self.entities.slot_alive(a.id.0 as int)
                    &&& a == self.entity_at(a.id.0 as int)
                    &&& self.partners(a.id.0 as int, cid).contains(b.id.0)
                    &&& b == self.entity_at(b.id.0 as int)
                },
            forall|i: int, k: int|
                self.entities.slot_alive(i) && 0 <= k < self.partners(i, cid).len() ==> r@.contains(
                    (self.entity_at(i), self.entity_at(#[trigger] self.partners(i, cid)[k] as int)),
                ),
            exists|es: Seq<EntityId>|
                {
                    &&& forall|i: int, j: int| 0 <= i < j < es.len() ==> es[i] != es[j]
                    &&& forall|x: u32|
                        #[trigger] es.contains(EntityId(x)) <==> (self.entities.slot_alive(x as int)
                            && self.entity_key(x as int).contains(cid))
                    &&& r@ == self.pairs_of(es, cid)
                },
    {
        let ents = self.entities_with(cid);
        let mut r: Vec<(Entity, Entity)> = Vec::new();
        let mut j: usize = 0;
        while j < ents.len()
            invariant
                self.wf(),
                self.valid_cid(cid),
                cid.spec_is_relation(),
                forall|i: int| #[trigger] self.entities.slot_alive(i) ==> self.partners_alive(i, cid),
                forall|i: int| 0 <= i < ents@.len() ==> #[trigger] self.entities.slot_alive(ents@[i].0 as int),
                forall|x: u32|
                    #[trigger] ents@.contains(EntityId(x)) <==> (self.entities.slot_alive(x as int)
                        && self.entity_key(x as int).contains(cid)),
                0 <= j <= ents@.len(),
                forall|a: int, b: int| 0 <= a < b < ents@.len() ==> ents@[a] != ents@[b],
                r@ == self.pairs_of(ents@.take(j as int), cid),
                forall|p: int|
                    0 <= p < r@.len() ==> {
                        let (a, b) = #[trigger] r@[p];
                        &&& self.entities.slot_alive(a.id.0 as int)
                        &&& a == self.entity_at(a.id.0 as int)
                        &&& self.partners(a.id.0 as int, cid).contains(b.id.0)
                        &&& b == self.entity_at(b.id.0 as int)
                    },
                forall|q: int, k: int|
                    0 <= q < j && 0 <= k < self.partners(ents@[q].0 as int, cid).len() ==> r@.contains(
                        (self.entity_at(ents@[q].0 as int), self.entity_at(#[trigger] self.partners(ents@[q].0 as int, cid)[k] as int)),
                    ),
            decreases ents@.len() - j,
        {
            let eid = ents[j];
            let ghost i = eid.0 as int;
            proof {
                assert(self.entities.slot_alive(i));
                assert(ents@.contains(EntityId(eid.0)));
            }
            let e = self.entities.get_from_id(eid);
            proof {
                assert(e == self.entity_at(i));
            }
            let partners = self.relation_partners(cid, e).unwrap();
            let ghost r0 = r@;
            let mut k: usize = 0;
            while k < partners.len()
                invariant
                    self.wf(),
                    self.entities.slot_alive(i),
                    e == self.entity_at(i),
                    partners@.len() == self.partners(i, cid).len(),
                    forall|t: int| 0 <= t < partners@.len() ==> #[trigger] partners@[t] == self.entity_at(
                        self.partners(i, cid)[t] as int,
                    ),
                    0 <= k <= partners@.len(),
                    r@.len() == r0.len() + k,
                    r@ == r0 + self.partner_pairs(i, cid).take(k as int),
                    forall|p: int| 0 <= p < r0.len() ==> #[trigger] r@[p] == r0[p],
                    forall|t: int| 0 <= t < k ==> #[trigger] r@[r0.len() + t] == (e, partners@[t]),
                    forall|p: int|
                        0 <= p < r0.len() ==> {
                            let (a, b) = #[trigger] r0[p];
                            &&& self.entities.slot_alive(a.id.0 as int)
                            &&& a == self.entity_at(a.id.0 as int)
                            &&& self.partners(a.id.0 as int, cid).contains(b.id.0)
                            &&& b == self.entity_at(b.id.0 as int)
                        },
                decreases partners@.len() - k,
            {
                r.push((e, partners[k]));
                k += 1;
                proof {
                    assert(self.partner_pairs(i, cid).take(k as int) =~= self.partner_pairs(i, cid).take(k - 1).push(
                        (e, partners@[k - 1]),
                    ));
                }
            }
            proof {
                assert(self.partner_pairs(i, cid).take(k as int) =~= self.partner_pairs(i, cid));
                assert(ents@.take(j + 1).drop_last() =~= ents@.take(j as int));
                assert(ents@.take(j + 1).last() == eid);
            }
            proof {
                assert forall|p: int| 0 <= p < r@.len() implies {
                    let (a, b) = #[trigger] r@[p];
                    &&& self.entities.slot_alive(a.id.0 as int)
                    &&& a == self.entity_at(a.id.0 as int)
                    &&& self.partners(a.id.0 as int, cid).contains(b.id.0)
                    &&& b == self.entity_at(b.id.0 as int)
                } by {
                    if p < r0.len() {
                        assert(r@[p] == r0[p]);
                    } else {
                        let t = p - r0.len();
                        assert(r@[r0.len() + t] == (e, partners@[t]));
                        assert(partners@[t] == self.entity_at(self.partners(i, cid)[t] as int));
                        assert(self.partners(i, cid).contains(self.partners(i, cid)[t]));
                        assert(self.entities.slot_alive(self.partners(i, cid)[t] as int));
                    }
                }
                assert forall|q: int, t: int|
                    0 <= q < j + 1 && 0 <= t < self.partners(ents@[q].0 as int, cid).len() implies r@.contains(
                        (self.entity_at(ents@[q].0 as int), self.entity_at(#[trigger] self.partners(ents@[q].0 as int, cid)[t] as int)),
                    ) by {
                    if q < j {
                        let pair = (self.entity_at(ents@[q].0 as int), self.entity_at(self.partners(ents@[q].0 as int, cid)[t] as int));
                        assert(r0.contains(pair));
                        let p = choose|p: int| 0 <= p < r0.len() && r0[p] == pair;
                        assert(r@[p] == pair);
                    } else {
                        assert(r@[r0.len() + t] == (e, partners@[t]));
                    }
                }
            }
            j += 1;
        }
        proof {
            assert forall|i: int, k: int|
                self.entities.slot_alive(i) && 0 <= k < self.partners(i, cid).len() implies r@.contains(
                (self.entity_at(i), self.entity_at(#[trigger] self.partners(i, cid)[k] as int)),
            ) by {
                // a slot with partners has the relation side
                assert(self.entity_key(i).contains(cid));
                assert(ents@.contains(EntityId(i as u32)));
                let q = choose|q: int| 0 <= q < ents@.len() && ents@[q] == EntityId(i as u32);
                assert(ents@[q].0 as int == i);
            }
        }
        proof {
            assert(ents@.take(j as int) =~= ents@);
            assert(r@ == self.pairs_of(ents@, cid));
        }
        r
    }
}

impl<V> Bookkeeping<V> {
    /// `y` is among `start`, or reached from one of them along the relation side `cid`.
    pub open spec fn in_closure(&self, cid: ComponentId, start: Seq<u32>, y: u32) -> bool {
        ||| start.contains(y)
        ||| exists|x: u32, n: nat| start.contains(x) && #[trigger] self.reaches(cid, x, y, n)
    }

    /// From a set that is closed under the relation, only members are reached.
    proof fn lemma_closed_reach(&self, cid: ComponentId, vis: Set<u32>, x: u32, y: u32, n: nat)
        requires
            vis.contains(x),
            forall|a: u32, b: u32| vis.contains(a) && #[trigger] self.related(cid, a, b) ==> vis.contains(b),
            self.reaches(cid, x, y, n),
        ensures
            vis.contains(y),
        decreases n,
    {
        if n > 0 {
            let z = choose|z: u32| #[trigger] self.related(cid, x, z) && self.reaches(cid, z, y, (n - 1) as nat);
            self.lemma_closed_reach(cid, vis, z, y, (n - 1) as nat);
        }
    }

    /// The ids of `start` followed by every id reached from them along the relation side `cid`
    /// that is not among them, each once; and the set of all of them. The search goes through
    /// the partners of living entities only.
    pub fn related_closure(&self, cid: ComponentId, start: &RelationVec) -> (r: (Vec<u32>, HashSet<u32>))
        requires
            self.wf(),
            self.valid_cid(cid),
            cid.spec_is_relation(),
            start.wf(),
        ensures
            r.0@.len() >= start@.len(),
            r.0@.subrange(0, start@.len() as int) == start@,
            forall|i: int, j: int|
                start@.len() <= i < j < r.0@.len() ==> r.0@[i] != r.0@[j],
            forall|i: int| start@.len() <= i < r.0@.len() ==> !start@.contains(#[trigger] r.0@[i]),
            forall|y: u32| #[trigger] r.1@.contains(y) <==> r.0@.contains(y),
            forall|y: u32| #[trigger] r.0@.contains(y) <==> self.in_closure(cid, start@, y),
    {
        broadcast use vstd::std_specs::hash::group_hash_axioms;

        let mut visited: HashSet<u32> = HashSet::new();
        let mut work: Vec<u32> = Vec::new();
        let mut out: Vec<u32> = Vec::new();
        let ghost mut vis: Set<int> = Set::empty();
        let len = start.len();
        let mut k: u32 = 0;
        while k < len
            invariant
                start.wf(),
                len == start@.len(),
                0 <= k <= len,
                out@ == start@.subrange(0, k as int),
                forall|y: u32| #[trigger] visited@.contains(y) <==> vis.contains(y as int),
                vis.finite(),
                forall|i: int| #[trigger] vis.contains(i) ==> 0 <= i < 0x1_0000_0000,
                forall|y: u32| #[trigger] visited@.contains(y) <==> out@.contains(y),
                forall|y: u32| #[trigger] work@.contains(y) <==> visited@.contains(y),
            decreases len - k,
        {
            let id = start.get(k as usize);
            let ghost o0 = out@;
            out.push(id);
            proof {
                assert(out@ =~= start@.subrange(0, k + 1));
                assert forall|y: u32| #[trigger] out@.contains(y) <==> (o0.contains(y) || y == id) by {
                    lemma_push_contains(o0, id, y);
                }
            }
            if !visited.contains(&id) {
                let ghost wp = work@;
                work.push(id);
                visited.insert(id);
                proof {
                    vis = vis.insert(id as int);
                    assert forall|y: u32| #[trigger] work@.contains(y) <==> (wp.contains(y) || y == id) by {
                        lemma_push_contains(wp, id, y);
                    }
                }
            }
            k += 1;
        }
        proof {
            assert(out@ =~= start@);
        }
        while work.len() > 0
            invariant
                self.wf(),
                self.valid_cid(cid),
                cid.spec_is_relation(),
                start.wf(),
                out@.len() >= start@.len(),
                out@.subrange(0, start@.len() as int) == start@,
                forall|i: int, j: int| start@.len() <= i < j < out@.len() ==> out@[i] != out@[j],
                forall|i: int| start@.len() <= i < out@.len() ==> !start@.contains(#[trigger] out@[i]),
                forall|y: u32| #[trigger] visited@.contains(y) <==> vis.contains(y as int),
                vis.finite(),
                forall|i: int| #[trigger] vis.contains(i) ==> 0 <= i < 0x1_0000_0000,
                forall|y: u32| #[trigger] visited@.contains(y) <==> out@.contains(y),
                forall|y: u32| #[trigger] work@.contains(y) ==> visited@.contains(y),
                forall|y: u32| #[trigger] visited@.contains(y) ==> self.in_closure(cid, start@, y),
                forall|y: u32| start@.contains(y) ==> #[trigger] visited@.contains(y),
                forall|y: u32|
                    #[trigger] visited@.contains(y) && !work@.contains(y) ==> forall|z: u32|
                        #[trigger] self.related(cid, y, z) ==> visited@.contains(z),
            decreases 0x1_0000_0000 - vis.len(), work@.len(),
        {
            proof {
                lemma_int_range(0, 0x1_0000_0000);
                assert(vis.subset_of(set_int_range(0, 0x1_0000_0000)));
                lemma_len_subset(vis, set_int_range(0, 0x1_0000_0000));
            }
            let ghost w0 = work@;
            let ghost v0 = visited@;
            let ghost vis0 = vis;
            let current = work.pop().unwrap();
            proof {
                assert(w0[w0.len() - 1] == current);
                assert(w0.contains(current));
                assert(work@ == w0.drop_last());
                assert forall|y: u32| #[trigger] work@.contains(y) implies w0.contains(y) by {
                    lemma_drop_last_contains(w0, y);
                }
            }
            if self.entities.is_slot_alive(EntityId(current)) {
                match self.get_component_opt_unchecked(EntityId(current), cid) {
                    Some(ComponentValue::Relation(rv2)) => {
                        proof {
                            self.lemma_relation_sized(cid);
                            assert(self.entity_key(current as int).contains(cid));
                            assert(rv2@ == self.partners(current as int, cid));
                        }
                        let len2 = rv2.len();
                        let mut k2: u32 = 0;
                        while k2 < len2
                            invariant
                                self.wf(),
                                rv2.wf(),
                                len2 == rv2@.len(),
                                rv2@ == self.partners(current as int, cid),
                                self.entities.slot_alive(current as int),
                                self.in_closure(cid, start@, current),
                                0 <= k2 <= len2,
                                out@.len() >= start@.len(),
                                out@.subrange(0, start@.len() as int) == start@,
                                forall|i: int, j: int| start@.len() <= i < j < out@.len() ==> out@[i] != out@[j],
                                forall|i: int| start@.len() <= i < out@.len() ==> !start@.contains(#[trigger] out@[i]),
                                forall|y: u32| #[trigger] visited@.contains(y) <==> vis.contains(y as int),
                                vis.finite(),
                                forall|i: int| #[trigger] vis.contains(i) ==> 0 <= i < 0x1_0000_0000,
                                vis0.subset_of(vis),
                                vis.len() == vis0.len() + (work@.len() - w0.len() + 1),
                                work@.len() >= w0.len() - 1,
                                forall|y: u32| #[trigger] visited@.contains(y) <==> out@.contains(y),
                                forall|y: u32| #[trigger] work@.contains(y) ==> visited@.contains(y),
                                forall|y: u32| #[trigger] visited@.contains(y) ==> self.in_closure(cid, start@, y),
                                forall|y: u32| #[trigger] v0.contains(y) ==> visited@.contains(y),
                                forall|y: u32| #[trigger] w0.drop_last().contains(y) ==> work@.contains(y),
                                forall|y: u32| #[trigger] visited@.contains(y) && !v0.contains(y) ==> work@.contains(y),
                                forall|j: int| 0 <= j < k2 ==> #[trigger] visited@.contains(rv2@[j]),
                            decreases len2 - k2,
                        {
                            let id = rv2.get(k2 as usize);
                            proof {
                                assert(rv2@.contains(id));
                                assert(self.related(cid, current, id));
                                if start@.contains(current) {
                                    assert(self.reaches(cid, current, id, 0));
                                } else {
                                    let (x, n) = choose|x: u32, n: nat| start@.contains(x) && #[trigger] self.reaches(cid, x, current, n);
                                    self.lemma_reaches_append(cid, x, current, id, n);
                                }
                                assert(self.in_closure(cid, start@, id));
                            }
                            if !visited.contains(&id) {
                                let ghost wp = work@;
                                let ghost op = out@;
                                work.push(id);
                                out.push(id);
                                visited.insert(id);
                                proof {
                                    vis = vis.insert(id as int);
                                    assert forall|y: u32| #[trigger] work@.contains(y) <==> (wp.contains(y) || y == id) by {
                                        lemma_push_contains(wp, id, y);
                                    }
                                    assert forall|y: u32| #[trigger] out@.contains(y) <==> (op.contains(y) || y == id) by {
                                        lemma_push_contains(op, id, y);
                                    }
                                    assert(out@.subrange(0, start@.len() as int) =~= op.subrange(0, start@.len() as int));
                                    assert(!start@.contains(id));
                                    assert forall|i: int, j: int| start@.len() <= i < j < out@.len() implies out@[i] != out@[j] by {
                                        if j == out@.len() - 1 {
                                            assert(op.contains(op[i]));
                                        }
                                    }
                                }
                            }
                            k2 += 1;
                        }
                        proof {
                            assert forall|z: u32| #[trigger] self.related(cid, current, z) implies visited@.contains(z) by {
                                let j = choose|j: int| 0 <= j < rv2@.len() && rv2@[j] == z;
                            }
                        }
                    },
                    Some(ComponentValue::Data(_)) => {
                        proof {
                            self.lemma_relation_sized(cid);
                            self.lemma_entry(current as int, cid);
                            assert(false);
                        }
                    },
                    None => {
                        proof {
                            self.lemma_relation_sized(cid);
                            assert forall|z: u32| !#[trigger] self.related(cid, current, z) by {}
                        }
                    },
                }
            } else {
                proof {
                    assert forall|z: u32| !#[trigger] self.related(cid, current, z) by {}
                }
            }
            proof {
                lemma_int_range(0, 0x1_0000_0000);
                assert(vis.subset_of(set_int_range(0, 0x1_0000_0000)));
                lemma_len_subset(vis, set_int_range(0, 0x1_0000_0000));
                assert(vis.len() > vis0.len() || (vis.len() == vis0.len() && work@.len() < w0.len()));
                assert forall|y: u32| #[trigger] visited@.contains(y) && !work@.contains(y) implies forall|z: u32|
                    #[trigger] self.related(cid, y, z) ==> visited@.contains(z) by {
                    lemma_drop_last_contains(w0, y);
                    if y != current {
                        if v0.contains(y) {
                            if w0.contains(y) {
                                assert(w0.drop_last().contains(y));
                                assert(work@.contains(y));
                            }
                            assert forall|z: u32| #[trigger] self.related(cid, y, z) implies visited@.contains(z) by {
                                assert(v0.contains(z));
                            }
                        }
                    }
                }
            }
        }
        proof {
            assert(work@.len() == 0);
            assert forall|a: u32, b: u32| visited@.contains(a) && #[trigger] self.related(cid, a, b) implies visited@.contains(b) by {
                assert(!work@.contains(a));
            }
            assert forall|y: u32| #[trigger] out@.contains(y) <==> self.in_closure(cid, start@, y) by {
                if out@.contains(y) {
                    assert(visited@.contains(y));
                }
                if start@.contains(y) {
                    assert(visited@.contains(y));
                    assert(out@.contains(y));
                }
                if self.in_closure(cid, start@, y) && !start@.contains(y) {
                    let (x, n) = choose|x: u32, n: nat| start@.contains(x) && #[trigger] self.reaches(cid, x, y, n);
                    assert(visited@.contains(x));
                    self.lemma_closed_reach(cid, visited@, x, y, n);
                    assert(out@.contains(y));
                }
            }
        }
        (out, visited)
    }
}

} // verus!
