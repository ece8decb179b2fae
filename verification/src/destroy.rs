//! Destroying entities: the row goes, the slot is freed, the partners forget the entity,
//! and cascading relations take their targets along.
use vstd::prelude::*;

use crate::archetype::{ArchetypeRow, ComponentValue, entry_fits};
use crate::bitset::BITSET_CAPACITY;
use crate::bookkeeping::Bookkeeping;
use crate::component::ComponentId;
use crate::entity_store::{Entity, EntityId, next_generation};
use crate::layout_vec::swap_removed;
use crate::relation_vec::{lemma_remove_first_multiset, remove_first};
use crate::consistency::lemma_rest_count;

verus! {

impl<V> Bookkeeping<V> {
    /// The slots that hold living entities.
    pub open spec fn living(&self) -> Set<int> {
        Set::new(|i: int| self.entities.slot_alive(i))
    }

    /// The living slots are finitely many.
    pub proof fn lemma_living_finite(&self)
        ensures
            self.living().finite(),
            self.living().len() <= self.entities.count(),
    {
        vstd::set_lib::lemma_int_range(0, self.entities.count() as int);
        assert(self.living().subset_of(vstd::set_lib::set_int_range(0, self.entities.count() as int)));
        vstd::set_lib::lemma_len_subset(
            self.living(),
            vstd::set_lib::set_int_range(0, self.entities.count() as int),
        );
    }

    /// Takes the living entity `e` out: its row is deleted (the last row of the archetype
    /// fills the hole) and its slot is freed. Every other entity stays as it was.
    fn remove_entity(&mut self, e: Entity)
        requires
            old(self).wf(),
            old(self).alive(e),
            e.generation.0 % 2 == 1,
        ensures
            final(self).wf(),
            !final(self).alive(e),
            !final(self).entities.slot_alive(e.id.0 as int),
            final(self).same_tables(old(self)),
            final(self).entities.count() == old(self).entities.count(),
            final(self).entities.deferred_spec() == old(self).entities.deferred_spec(),
            final(self).entities.free_list() == seq![e.id.0 as usize] + old(self).entities.free_list(),
            final(self).entities.gen_of(e.id.0 as int) == next_generation(e.generation.0),
            forall|i: int|
                0 <= i < old(self).entities.count() && i != e.id.0 ==> #[trigger] final(self).entities.gen_of(i)
                    == old(self).entities.gen_of(i),
            forall|i: int|
                #[trigger] final(self).entities.slot_alive(i) <==> (old(self).entities.slot_alive(i) && i
                    != e.id.0),
            forall|i: int|
                old(self).entities.slot_alive(i) && i != e.id.0 ==> #[trigger] final(self).same_entity(
                    old(self),
                    i,
                ),
    {
        let ghost id = e.id.0 as int;
        let ghost o = *old(self);
        let (aid, row) = self.entities.get_archetype(e);
        proof {
            assert(self.entities.slot_alive(id));
        }
        let ghost a0 = self.archetypes@[aid.0 as int];
        proof {
            assert(a0.wf());
        }
        let swapped = self.archetypes[aid.0 as usize].delete_row(row);
        let ghost a1 = self.archetypes@[aid.0 as int];
        self.entities.destroy(e);
        let ghost m1 = self.entities;
        proof {
            assert(self.archetypes@ == o.archetypes@.update(aid.0 as int, a1));
            let last = a0.entities@.len() - 1;
            if swapped {
                let s = a0.entities@[last].0 as int;
                assert(o.entities.slot_alive(s));
                assert(o.slot_row(s) == last);
                assert(s != id);
                assert(m1.same_slot(&o.entities, s));
                assert(a1.entities@[row.0 as int] == a0.entities@[last]);
            }
        }
        if swapped {
            let s = self.archetypes[aid.0 as usize].entities[row.0 as usize];
            self.entities.set_archetype_unchecked(s, aid, row);
        }
        proof {
            let a = aid.0 as int;
            let r = row.0 as int;
            let last = a0.entities@.len() - 1;
            let s = a0.entities@[last].0 as int;
            let A2 = self.archetypes@[a];
            assert forall|i: int| 0 <= i < o.entities.count() && i != id && !(r < last && i == s) implies #[trigger] self.entities.same_slot(
                &o.entities,
                i,
            ) by {
                assert(m1.same_slot(&o.entities, i));
                if r < last {
                    assert(self.entities.same_slot(&m1, i));
                }
            }
            assert forall|i: int| 0 <= i < o.entities.count() && i != id implies #[trigger] self.entities.gen_of(i)
                == o.entities.gen_of(i) by {
                assert(m1.same_slot(&o.entities, i));
                if r < last && i != s {
                    assert(self.entities.same_slot(&m1, i));
                }
            }
            if r < last {
                assert(self.entities.same_slot(&m1, id));
                assert(self.entities.gen_of(s) == o.entities.gen_of(s));
                assert(self.slot_arch(s) == a && self.slot_row(s) == r);
            }
            assert forall|i: int| #[trigger] self.entities.slot_alive(i) <==> (o.entities.slot_alive(i) && i != id) by {
                if 0 <= i < o.entities.count() && i != id {
                    assert(self.entities.gen_of(i) == o.entities.gen_of(i));
                }
                if i == id {
                    if r < last {
                        assert(self.entities.same_slot(&m1, id));
                    }
                }
            }
            // the archetype stays well formed
            assert(A2.wf());
            assert forall|x: int| 0 <= x < self.archetypes@.len() implies (#[trigger] self.archetypes@[x]).wf() by {
                if x != a {
                    assert(self.archetypes@[x] == o.archetypes@[x]);
                }
            }
            assert forall|x: int, c: ComponentId|
                0 <= x < self.archetypes@.len() implies (#[trigger] self.archetypes@[x].components@.contains(
                c,
            ) <==> (self.exact_archetype@[x]@.contains(c) && self.sized(c))) by {
                assert(self.archetypes@[x].components@ == o.archetypes@[x].components@);
            }
            assert(self.wf_archetypes());
            assert forall|x: int, q: int|
                0 <= x < self.archetypes@.len() && 0 <= q < self.archetypes@[x].entities@.len() implies {
                let i = (#[trigger] self.archetypes@[x].entities@[q]).0 as int;
                &&& i != -1
                &&& self.entities.slot_alive(i)
                &&& self.slot_arch(i) == x
                &&& self.slot_row(i) == q
            } by {
                let i = self.archetypes@[x].entities@[q].0 as int;
                if x == a {
                    if q == r {
                        assert(i == s);
                    } else {
                        assert(i == a0.entities@[q].0);
                        assert(o.slot_arch(i) == a && o.slot_row(i) == q);
                        assert(i != id);
                        if r < last {
                            assert(i != s);
                        }
                        assert(self.entities.same_slot(&o.entities, i));
                    }
                } else {
                    assert(self.archetypes@[x] == o.archetypes@[x]);
                    assert(o.slot_arch(i) == x && o.slot_row(i) == q);
                    assert(i != id);
                    if r < last {
                        assert(o.slot_arch(s) == a);
                        assert(i != s);
                    }
                    assert(self.entities.same_slot(&o.entities, i));
                }
            }
            assert forall|i: int| #[trigger] self.entities.slot_alive(i) && i != -1 implies {
                &&& 0 <= self.slot_arch(i) < self.archetypes@.len()
                &&& 0 <= self.slot_row(i) < self.archetypes@[self.slot_arch(i)].entities@.len()
                &&& self.archetypes@[self.slot_arch(i)].entities@[self.slot_row(i)].0 == i
            } by {
                assert(o.entities.slot_alive(i));
                if r < last && i == s {
                } else {
                    assert(self.entities.same_slot(&o.entities, i));
                    let x = o.slot_arch(i);
                    let q = o.slot_row(i);
                    if x == a {
                        assert(q != r);
                        assert(q != last);
                    } else {
                        assert(self.archetypes@[x] == o.archetypes@[x]);
                    }
                }
            }
            assert(self.wf_locations());
            assert forall|i: int| o.entities.slot_alive(i) && i != id implies #[trigger] self.same_entity(&o, i) by {
                let x = o.slot_arch(i);
                let q = o.slot_row(i);
                assert forall|c: ComponentId| #[trigger] o.entity_key(i).contains(c) && o.sized(c) implies self.entity_value(
                    i,
                    c,
                ) == o.entity_value(i, c) by {
                    assert(o.exact_archetype@[x]@.contains(c));
                    assert(o.valid_cid(c));
                    let X = o.archetypes@[x];
                    assert(X.wf());
                    assert(X.components@.contains(c));
                    let k = X.components@.index_of(c);
                    assert(X.columns@[k]@.len() == X.entities@.len());
                    if x == a {
                        if r < last && i == s {
                            assert(q == last);
                        } else {
                            assert(q != r && q != last);
                            assert(self.entities.same_slot(&o.entities, i));
                        }
                    } else {
                        assert(self.entities.same_slot(&o.entities, i));
                    }
                }
                if !(r < last && i == s) {
                    assert(self.entities.same_slot(&o.entities, i));
                }
            }
        }
    }
}

impl<V> Bookkeeping<V> {
    /// The component list of the archetype of slot `i`.
    pub open spec fn slot_columns(&self, i: int) -> Seq<ComponentId> {
        self.archetypes@[self.slot_arch(i)].components@
    }

    /// The relation entries of slot `i` in the first `n` columns of its archetype: for each
    /// relation side `c` there, the pairs of the other side and a partner, in storage order.
    pub open spec fn entries_upto(&self, i: int, n: int) -> Seq<(ComponentId, u32)>
        decreases n,
    {
        if n <= 0 {
            Seq::empty()
        } else {
            let c = self.slot_columns(i)[n - 1];
            self.entries_upto(i, n - 1) + if c.spec_is_relation() {
                self.partners(i, c).map_values(|y: u32| (c.spec_flip_target(), y))
            } else {
                Seq::empty()
            }
        }
    }

    /// The partners of slot `i` in the cascading relations among the first `n` columns of its
    /// archetype, in storage order.
    pub open spec fn cascade_upto(&self, i: int, n: int) -> Seq<u32>
        decreases n,
    {
        if n <= 0 {
            Seq::empty()
        } else {
            let c = self.slot_columns(i)[n - 1];
            self.cascade_upto(i, n - 1) + if c.spec_is_cascading() {
                self.partners(i, c)
            } else {
                Seq::empty()
            }
        }
    }

    /// All relation entries of slot `i`.
    pub open spec fn entries(&self, i: int) -> Seq<(ComponentId, u32)> {
        self.entries_upto(i, self.slot_columns(i).len() as int)
    }

    /// All partners of slot `i` in cascading relations.
    pub open spec fn cascade_targets(&self, i: int) -> Seq<u32> {
        self.cascade_upto(i, self.slot_columns(i).len() as int)
    }

    /// Collects the relation entries and the cascade targets of the living entity `e`.
    fn collect_relations(&self, e: Entity) -> (r: (Vec<(ComponentId, u32)>, Vec<u32>))
        requires
            self.wf(),
            self.alive(e),
            e.generation.0 % 2 == 1,
        ensures
            r.0@ == self.entries(e.id.0 as int),
            r.1@ == self.cascade_targets(e.id.0 as int),
    {
        let ghost id = e.id.0 as int;
        let (aid, row) = self.entities.get_archetype(e);
        proof {
            assert(self.entities.slot_alive(id));
        }
        let a = &self.archetypes[aid.0 as usize];
        proof {
            assert(a.wf());
        }
        let mut to_delete: Vec<(ComponentId, u32)> = Vec::new();
        let mut to_destroy: Vec<u32> = Vec::new();
        let mut j: usize = 0;
        while j < a.components.len()
            invariant
                self.wf(),
                self.entities.slot_alive(id),
                *a == self.archetypes@[self.slot_arch(id)],
                a.wf(),
                row.0 == self.slot_row(id),
                row.0 < a.entities@.len(),
                0 <= j <= a.components@.len(),
                to_delete@ == self.entries_upto(id, j as int),
                to_destroy@ == self.cascade_upto(id, j as int),
            decreases a.components@.len() - j,
        {
            let c = a.components[j];
            proof {
                assert(a.components@.contains(c));
                assert(self.exact_archetype@[self.slot_arch(id)]@.contains(c) && self.sized(c));
                crate::archetype::lemma_sorted_index_of(a.components@, j as int);
                assert(a.columns@[j as int]@.len() == a.entities@.len());
            }
            if c.is_relation() {
                let flipped = c.flip_target();
                let cascading = c.is_cascading();
                let value = a.columns[j].get(row.0);
                proof {
                    assert(entry_fits(c, *value));
                }
                match value {
                    ComponentValue::Relation(rv) => {
                        proof {
                            assert(rv@ == self.partners(id, c));
                        }
                        let ghost d0 = to_delete@;
                        let ghost t0 = to_destroy@;
                        let len = rv.len();
                        let mut k: u32 = 0;
                        while k < len
                            invariant
                                rv.wf(),
                                len == rv@.len(),
                                0 <= k <= len,
                                to_delete@ == d0 + rv@.take(k as int).map_values(|y: u32| (flipped, y)),
                                to_destroy@ == t0 + if cascading {
                                    rv@.take(k as int)
                                } else {
                                    Seq::empty()
                                },
                            decreases len - k,
                        {
                            let y = rv.get(k as usize);
                            to_delete.push((flipped, y));
                            if cascading {
                                to_destroy.push(y);
                            }
                            proof {
                                assert(rv@.take(k + 1) == rv@.take(k as int).push(y));
                                assert(to_delete@ =~= d0 + rv@.take(k + 1).map_values(|y: u32| (flipped, y)));
                                if cascading {
                                    assert(to_destroy@ =~= t0 + rv@.take(k + 1));
                                } else {
                                    assert(to_destroy@ =~= t0 + Seq::<u32>::empty());
                                }
                            }
                            k += 1;
                        }
                        proof {
                            assert(rv@.take(len as int) == rv@);
                            assert(self.slot_columns(id)[j as int] == c);
                            assert(to_delete@ =~= self.entries_upto(id, j + 1));
                            assert(to_destroy@ =~= self.cascade_upto(id, j + 1));
                        }
                    },
                    ComponentValue::Data(_) => {
                        proof {
                            assert(false);
                        }
                    },
                }
            } else {
                proof {
                    assert(self.slot_columns(id)[j as int] == c);
                    assert(!c.spec_is_cascading());
                    assert(to_delete@ =~= self.entries_upto(id, j + 1));
                    assert(to_destroy@ =~= self.cascade_upto(id, j + 1));
                }
            }
            j += 1;
        }
        (to_delete, to_destroy)
    }
}

impl<V> Bookkeeping<V> {
    /// Every entity of `old` that is gone in `self` took the targets of its cascading
    /// relations along.
    pub open spec fn cascade_closed(&self, old: &Self) -> bool {
        forall|x: int, y: u32|
            old.entities.slot_alive(x) && !self.entities.slot_alive(x) && #[trigger] old.cascade_targets(
                x,
            ).contains(y) ==> !self.entities.slot_alive(y as int)
    }

    /// `y` is reached from the living slot `x` along `n + 1` cascading relations, through
    /// living entities.
    pub open spec fn cascade_reaches(&self, x: int, y: u32, n: nat) -> bool
        decreases n,
    {
        self.entities.slot_alive(x) && if n == 0 {
            self.cascade_targets(x).contains(y)
        } else {
            exists|z: u32|
                #[trigger] self.cascade_targets(x).contains(z) && self.cascade_reaches(z as int, y, (n - 1) as nat)
        }
    }

    /// What the cascade targets of a slot are: the partners in its cascading relation sides.
    proof fn lemma_cascade_upto_contains(&self, i: int, n: int, y: u32)
        requires
            0 <= n <= self.slot_columns(i).len(),
        ensures
            self.cascade_upto(i, n).contains(y) <==> exists|k: int|
                0 <= k < n && (#[trigger] self.slot_columns(i)[k]).spec_is_cascading() && self.partners(
                    i,
                    self.slot_columns(i)[k],
                ).contains(y),
        decreases n,
    {
        if n > 0 {
            self.lemma_cascade_upto_contains(i, n - 1, y);
            let c = self.slot_columns(i)[n - 1];
            let prev = self.cascade_upto(i, n - 1);
            let add = if c.spec_is_cascading() { self.partners(i, c) } else { Seq::<u32>::empty() };
            let all = prev + add;
            if all.contains(y) {
                let j = choose|j: int| 0 <= j < all.len() && all[j] == y;
                if j < prev.len() {
                    assert(prev[j] == y);
                } else {
                    assert(add[j - prev.len()] == y);
                }
            }
            if exists|k: int|
                0 <= k < n && (#[trigger] self.slot_columns(i)[k]).spec_is_cascading() && self.partners(
                    i,
                    self.slot_columns(i)[k],
                ).contains(y) {
                let k = choose|k: int|
                    0 <= k < n && (#[trigger] self.slot_columns(i)[k]).spec_is_cascading() && self.partners(
                        i,
                        self.slot_columns(i)[k],
                    ).contains(y);
                if k < n - 1 {
                    let j = choose|j: int| 0 <= j < prev.len() && prev[j] == y;
                    assert(all[j] == y);
                } else {
                    let j = choose|j: int| 0 <= j < add.len() && add[j] == y;
                    assert(all[prev.len() + j] == y);
                }
            }
        }
    }

    /// A cascade target of a slot that is still alive stays a cascade target of it while
    /// entities are destroyed, as long as the slot lives too.
    proof fn lemma_cascade_kept(new: &Self, old: &Self, x: int, y: u32)
        requires
            old.wf(),
            new.wf(),
            new.shrunk_from(old),
            old.entities.slot_alive(x),
            new.entities.slot_alive(x),
            new.entities.slot_alive(y as int),
            old.cascade_targets(x).contains(y),
        ensures
            new.cascade_targets(x).contains(y),
    {
        broadcast use vstd::seq_lib::group_to_multiset_ensures;

        old.lemma_cascade_upto_contains(x, old.slot_columns(x).len() as int, y);
        let k = choose|k: int|
            0 <= k < old.slot_columns(x).len() && (#[trigger] old.slot_columns(x)[k]).spec_is_cascading()
                && old.partners(x, old.slot_columns(x)[k]).contains(y);
        let c = old.slot_columns(x)[k];
        let a = old.slot_arch(x);
        assert(old.archetypes@[a].components@.contains(c));
        assert(old.exact_archetype@[a]@.contains(c));
        assert(old.entity_key(x).contains(c));
        old.lemma_key_valid(x, c);
        assert(old.partners(x, c).to_multiset().count(y) > 0);
        assert(new.partners(x, c).to_multiset().count(y) == old.partners(x, c).to_multiset().count(y));
        assert(new.partners(x, c).contains(y));
        assert(new.entity_key(x).contains(c) && new.sized(c));
        new.lemma_entry(x, c);
        let cols = new.slot_columns(x);
        assert(cols.contains(c));
        let k2 = choose|k2: int| 0 <= k2 < cols.len() && cols[k2] == c;
        new.lemma_cascade_upto_contains(x, cols.len() as int, y);
        assert(cols[k2].spec_is_cascading() && new.partners(x, cols[k2]).contains(y));
    }

    /// Along a closed destruction, everything reached from a destroyed entity is destroyed.
    pub proof fn lemma_closed_reaches(new: &Self, old: &Self, x: int, y: u32, n: nat)
        requires
            new.cascade_closed(old),
            !new.entities.slot_alive(x),
            old.cascade_reaches(x, y, n),
        ensures
            !new.entities.slot_alive(y as int),
        decreases n,
    {
        if n > 0 {
            let z = choose|z: u32|
                #[trigger] old.cascade_targets(x).contains(z) && old.cascade_reaches(z as int, y, (n - 1) as nat);
            Self::lemma_closed_reaches(new, old, z as int, y, (n - 1) as nat);
        }
    }

    /// The free list of `self` is that of `old` with slot `x` put in front, and before it the
    /// slots `d`, each alive in `old`, not alive in `self`, and other than `x`.
    pub open spec fn freed_from(&self, old: &Self, x: int, d: Seq<usize>) -> bool {
        &&& self.entities.free_list() == d + seq![x as usize] + old.entities.free_list()
        &&& forall|j: int|
            0 <= j < d.len() ==> old.entities.slot_alive(#[trigger] d[j] as int)
                && !self.entities.slot_alive(d[j] as int) && d[j] != x
    }

    /// A cascade target of a slot after destroying entities was one before.
    proof fn lemma_targets_shrunk(new: &Self, old: &Self, x: int, w: u32)
        requires
            old.wf(),
            new.wf(),
            new.shrunk_from(old),
            new.entities.slot_alive(x),
            new.cascade_targets(x).contains(w),
        ensures
            old.cascade_targets(x).contains(w),
    {
        broadcast use vstd::seq_lib::group_to_multiset_ensures;

        new.lemma_cascade_upto_contains(x, new.slot_columns(x).len() as int, w);
        let k = choose|k: int|
            0 <= k < new.slot_columns(x).len() && (#[trigger] new.slot_columns(x)[k]).spec_is_cascading()
                && new.partners(x, new.slot_columns(x)[k]).contains(w);
        let c = new.slot_columns(x)[k];
        let a = new.slot_arch(x);
        assert(new.archetypes@[a].components@.contains(c));
        assert(new.exact_archetype@[a]@.contains(c));
        assert(new.entity_key(x).contains(c));
        assert(old.entity_key(x).contains(c));
        old.lemma_key_valid(x, c);
        assert(new.partners(x, c).to_multiset().count(w) > 0);
        assert(new.partners(x, c).to_multiset().count(w) <= old.partners(x, c).to_multiset().count(w));
        assert(old.partners(x, c).contains(w));
        assert(old.sized(c));
        old.lemma_entry(x, c);
        let cols = old.slot_columns(x);
        assert(cols.contains(c));
        let k2 = choose|k2: int| 0 <= k2 < cols.len() && cols[k2] == c;
        old.lemma_cascade_upto_contains(x, cols.len() as int, w);
        assert(cols[k2].spec_is_cascading() && old.partners(x, cols[k2]).contains(w));
    }

    /// What is reached along cascading relations after destroying entities was reached before.
    proof fn lemma_reaches_shrunk(new: &Self, old: &Self, x: int, y: u32, n: nat)
        requires
            old.wf(),
            new.wf(),
            new.shrunk_from(old),
            new.cascade_reaches(x, y, n),
        ensures
            old.cascade_reaches(x, y, n),
        decreases n,
    {
        if n == 0 {
            Self::lemma_targets_shrunk(new, old, x, y);
        } else {
            let z = choose|z: u32|
                #[trigger] new.cascade_targets(x).contains(z) && new.cascade_reaches(z as int, y, (n - 1) as nat);
            Self::lemma_targets_shrunk(new, old, x, z);
            Self::lemma_reaches_shrunk(new, old, z as int, y, (n - 1) as nat);
            assert(old.cascade_targets(x).contains(z) && old.cascade_reaches(z as int, y, (n - 1) as nat));
        }
    }

    /// `self` came from `old` by destroying entities: every entity living in `self` lived in
    /// `old` with the same generation, lost at most relation sides, kept its other components
    /// with their values, and its partner lists lost only ids of slots that are no longer alive.
    pub open spec fn shrunk_from(&self, old: &Self) -> bool {
        &&& self.same_components(old)
        &&& old.archetypes@.len() <= self.archetypes@.len()
        &&& forall|a: int| 0 <= a < old.archetypes@.len() ==> #[trigger] self.key(a) == old.key(a)
        &&& self.entities.count() == old.entities.count()
        &&& self.entities.deferred_spec() == old.entities.deferred_spec()
        &&& forall|i: int| #[trigger]
            self.entities.slot_alive(i) ==> old.entities.slot_alive(i) && self.entities.gen_of(i)
                == old.entities.gen_of(i)
        &&& forall|i: int, c: ComponentId|
            self.entities.slot_alive(i) && #[trigger] self.entity_key(i).contains(c) ==> old.entity_key(
                i,
            ).contains(c)
        &&& forall|i: int, c: ComponentId|
            self.entities.slot_alive(i) && #[trigger] old.entity_key(i).contains(c)
                && !c.spec_is_relation() ==> self.entity_key(i).contains(c) && (old.sized(c)
                ==> self.entity_value(i, c) == old.entity_value(i, c))
        &&& forall|i: int, c: ComponentId, y: u32|
            self.entities.slot_alive(i) && old.valid_cid(c) ==> #[trigger] self.partners(
                i,
                c,
            ).to_multiset().count(y) <= old.partners(i, c).to_multiset().count(y)
        &&& forall|i: int, c: ComponentId, y: u32|
            self.entities.slot_alive(i) && old.valid_cid(c) && self.entities.slot_alive(y as int)
                ==> #[trigger] self.partners(i, c).to_multiset().count(y) == old.partners(
                i,
                c,
            ).to_multiset().count(y)
    }

    /// Every state is shrunk from itself.
    proof fn lemma_shrunk_refl(&self)
        ensures
            self.shrunk_from(self),
    {
    }

    /// Shrinking composes.
    proof fn lemma_shrunk_trans(c: &Self, b: &Self, a: &Self)
        requires
            a.wf(),
            b.shrunk_from(a),
            c.shrunk_from(b),
        ensures
            c.shrunk_from(a),
    {
        assert forall|k: int| 0 <= k < c.components@.len() implies (#[trigger] c.components@[k]).id
            == a.components@[k].id && c.components@[k].layout_size == a.components@[k].layout_size by {
            assert(b.components@[k].id == a.components@[k].id);
        }
        assert forall|aa: int| 0 <= aa < a.archetypes@.len() implies #[trigger] c.key(aa) == a.key(aa) by {
            assert(b.key(aa) == a.key(aa));
        }
        assert forall|i: int, x: ComponentId|
            c.entities.slot_alive(i) && #[trigger] a.entity_key(i).contains(x) && !x.spec_is_relation() implies c.entity_key(i).contains(x) && (a.sized(x) ==> c.entity_value(i, x)
                == a.entity_value(i, x)) by {
            assert(b.entities.slot_alive(i));
            assert(b.entity_key(i).contains(x));
            assert(a.exact_archetype@[a.slot_arch(i)]@.contains(x));
            assert(a.valid_cid(x));
            assert(b.sized(x) == a.sized(x));
        }
        assert forall|i: int, x: ComponentId, y: u32|
            c.entities.slot_alive(i) && a.valid_cid(x) implies #[trigger] c.partners(i, x).to_multiset().count(y)
            <= a.partners(i, x).to_multiset().count(y) by {
            assert(b.entities.slot_alive(i));
            assert(b.valid_cid(x));
            assert(b.partners(i, x).to_multiset().count(y) <= a.partners(i, x).to_multiset().count(y));
        }
        assert forall|i: int, x: ComponentId, y: u32|
            c.entities.slot_alive(i) && a.valid_cid(x) && c.entities.slot_alive(y as int) implies #[trigger] c.partners(
            i,
            x,
        ).to_multiset().count(y) == a.partners(i, x).to_multiset().count(y) by {
            assert(b.entities.slot_alive(i));
            assert(b.entities.slot_alive(y as int));
            assert(b.valid_cid(x));
            assert(b.partners(i, x).to_multiset().count(y) == a.partners(i, x).to_multiset().count(y));
        }
    }

    /// The other side of a valid relation side is valid too.
    pub proof fn lemma_flip_valid_any(&self, cid: ComponentId)
        requires
            self.wf(),
            self.valid_cid(cid),
            cid.spec_is_relation(),
        ensures
            self.valid_cid(cid.spec_flip_target()),
            cid.spec_flip_target().spec_is_relation(),
    {
        let o = self.components@[cid.spec_id() as int].id;
        cid.lemma_flip_target();
        if cid != o {
            o.lemma_flip_target();
        }
    }

    /// The relation entries of a living slot name valid relation sides.
    proof fn lemma_entries_valid(&self, i: int, n: int)
        requires
            self.wf(),
            self.entities.slot_alive(i),
            0 <= n <= self.slot_columns(i).len(),
        ensures
            forall|k: int|
                0 <= k < self.entries_upto(i, n).len() ==> self.valid_cid(
                    (#[trigger] self.entries_upto(i, n)[k]).0,
                ) && self.entries_upto(i, n)[k].0.spec_is_relation(),
        decreases n,
    {
        if n > 0 {
            self.lemma_entries_valid(i, n - 1);
            let c = self.slot_columns(i)[n - 1];
            let a = self.slot_arch(i);
            assert(self.archetypes@[a].components@.contains(c));
            assert(self.exact_archetype@[a]@.contains(c));
            if c.spec_is_relation() {
                self.lemma_flip_valid_any(c);
            }
            let prev = self.entries_upto(i, n - 1);
            assert forall|k: int| 0 <= k < self.entries_upto(i, n).len() implies self.valid_cid(
                (#[trigger] self.entries_upto(i, n)[k]).0,
            ) && self.entries_upto(i, n)[k].0.spec_is_relation() by {
                if k >= prev.len() {
                    assert(c.spec_is_relation());
                } else {
                    assert(self.entries_upto(i, n)[k] == prev[k]);
                }
            }
        }
    }

    /// Slots that keep their components and values keep their partners.
    pub(crate) proof fn lemma_same_entity_partners(new: &Self, old: &Self, i: int, c: ComponentId)
        requires
            old.wf(),
            old.entities.slot_alive(i),
            new.same_entity(old, i),
            new.same_components(old),
            old.valid_cid(c),
        ensures
            new.partners(i, c) == old.partners(i, c),
    {
        assert(new.sized(c) == old.sized(c));
    }
}

impl<V> Bookkeeping<V> {
    /// Taking an entity out shrinks the state.
    proof fn lemma_removed_shrinks(new: &Self, old: &Self, x: int)
        requires
            old.wf(),
            new.same_tables(old),
            new.entities.count() == old.entities.count(),
            new.entities.deferred_spec() == old.entities.deferred_spec(),
            forall|i: int| #[trigger] new.entities.slot_alive(i) <==> (old.entities.slot_alive(i) && i != x),
            forall|i: int| old.entities.slot_alive(i) && i != x ==> #[trigger] new.same_entity(old, i),
        ensures
            new.shrunk_from(old),
    {
        assert forall|a: int| 0 <= a < old.archetypes@.len() implies #[trigger] new.key(a) == old.key(a) by {}
        assert forall|i: int| #[trigger] new.entities.slot_alive(i) implies old.entities.slot_alive(i)
            && new.entities.gen_of(i) == old.entities.gen_of(i) by {
            assert(new.same_entity(old, i));
        }
        assert forall|i: int, c: ComponentId|
            new.entities.slot_alive(i) && #[trigger] new.entity_key(i).contains(c) implies old.entity_key(i).contains(c) by {
            assert(new.same_entity(old, i));
        }
        assert forall|i: int, c: ComponentId|
            new.entities.slot_alive(i) && #[trigger] old.entity_key(i).contains(c) && !c.spec_is_relation() implies new.entity_key(i).contains(c) && (old.sized(c) ==> new.entity_value(i, c)
                == old.entity_value(i, c)) by {
            assert(new.same_entity(old, i));
        }
        assert forall|i: int, c: ComponentId, y: u32|
            new.entities.slot_alive(i) && old.valid_cid(c) implies #[trigger] new.partners(i, c).to_multiset().count(y)
            == old.partners(i, c).to_multiset().count(y) by {
            assert(new.same_entity(old, i));
            Self::lemma_same_entity_partners(new, old, i, c);
        }
    }

    /// Taking one occurrence of a dead id out of a partner list shrinks the state.
    proof fn lemma_unrelated_shrinks(new: &Self, old: &Self, y: int, cid: ComponentId, x: u32)
        requires
            old.wf(),
            old.entities.slot_alive(y),
            !old.entities.slot_alive(x as int),
            old.valid_cid(cid),
            cid.spec_is_relation(),
            new.same_except(old, y),
            forall|c: ComponentId|
                c != cid ==> (#[trigger] new.entity_key(y).contains(c) <==> old.entity_key(y).contains(c)),
            new.entity_key(y).contains(cid) ==> old.entity_key(y).contains(cid),
            forall|c: ComponentId|
                #[trigger] old.entity_key(y).contains(c) && old.sized(c) && c != cid ==> new.entity_value(
                    y,
                    c,
                ) == old.entity_value(y, c),
            new.partners(y, cid) == remove_first(old.partners(y, cid), x),
        ensures
            new.shrunk_from(old),
    {
        assert forall|a: int| 0 <= a < old.archetypes@.len() implies #[trigger] new.key(a) == old.key(a) by {}
        assert forall|i: int| #[trigger] new.entities.slot_alive(i) implies old.entities.slot_alive(i)
            && new.entities.gen_of(i) == old.entities.gen_of(i) by {
            if i != y {
                assert(new.same_entity(old, i));
            }
        }
        assert forall|i: int, c: ComponentId|
            new.entities.slot_alive(i) && #[trigger] new.entity_key(i).contains(c) implies old.entity_key(i).contains(c) by {
            if i != y {
                assert(new.same_entity(old, i));
            }
        }
        assert forall|i: int, c: ComponentId|
            new.entities.slot_alive(i) && #[trigger] old.entity_key(i).contains(c) && !c.spec_is_relation() implies new.entity_key(i).contains(c) && (old.sized(c) ==> new.entity_value(i, c)
                == old.entity_value(i, c)) by {
            if i != y {
                assert(new.same_entity(old, i));
            }
        }
        assert forall|i: int, c: ComponentId, z: u32|
            new.entities.slot_alive(i) && old.valid_cid(c) implies #[trigger] new.partners(i, c).to_multiset().count(z)
            <= old.partners(i, c).to_multiset().count(z) && (new.entities.slot_alive(z as int) ==> new.partners(
            i,
            c,
        ).to_multiset().count(z) == old.partners(i, c).to_multiset().count(z)) by {
            if i != y {
                assert(new.same_entity(old, i));
                Self::lemma_same_entity_partners(new, old, i, c);
            } else if c != cid {
                assert(new.sized(c) == old.sized(c));
                Self::lemma_partners_same(new, old, i, c);
            } else {
                lemma_remove_first_multiset(old.partners(y, cid), x);
                if z == x {
                    assert(!new.entities.slot_alive(z as int));
                }
            }
        }
    }

    /// Destroys `e` if it is alive: its partners forget it, then the targets of its
    /// cascading relations are destroyed. There are no deferred creations.
    fn destroy_inner(&mut self, e: Entity)
        requires
            old(self).wf(),
            e.generation.0 % 2 == 1,
            old(self).entities.deferred_spec() == 0,
        ensures
            final(self).wf(),
            final(self).shrunk_from(old(self)),
            !final(self).entities.slot_alive(e.id.0 as int) || !old(self).alive(e),
            !final(self).alive(e),
            old(self).alive(e) ==> forall|y: u32|
                #[trigger] old(self).cascade_targets(e.id.0 as int).contains(y)
                    ==> !final(self).entities.slot_alive(y as int),
            !old(self).alive(e) ==> *final(self) == *old(self),
            final(self).cascade_closed(old(self)),
            forall|i: int|
                0 <= i < old(self).entities.count() && !old(self).entities.slot_alive(i)
                    ==> #[trigger] final(self).entities.gen_of(i) == old(self).entities.gen_of(i),
            old(self).alive(e) ==> final(self).entities.gen_of(e.id.0 as int) == next_generation(e.generation.0),
            old(self).alive(e) ==> exists|d: Seq<usize>| #[trigger] final(self).freed_from(old(self), e.id.0 as int, d),
            forall|i: int|
                old(self).entities.slot_alive(i) && !#[trigger] final(self).entities.slot_alive(i) ==> i
                    == e.id.0 || exists|n: nat| #[trigger] old(self).cascade_reaches(e.id.0 as int, i as u32, n),
            old(self).relations_consistent() ==> final(self).relations_consistent()
                || final(self).archetypes@.len() >= BITSET_CAPACITY,
        decreases old(self).living().len(),
    {
        let ghost o = *old(self);
        let ghost id = e.id.0 as int;
        if !self.entities.is_alive(e) {
            proof {
                self.lemma_shrunk_refl();
            }
            return;
        }
        proof {
            assert(self.entities.slot_alive(id));
        }
        let (to_delete, to_destroy) = self.collect_relations(e);
        proof {
            o.lemma_entries_valid(id, o.slot_columns(id).len() as int);
        }
        self.remove_entity(e);
        proof {
            Self::lemma_removed_shrinks(self, &o, id);
            o.lemma_living_finite();
            self.lemma_living_finite();
            assert(self.living().subset_of(o.living().remove(id)));
            vstd::set_lib::lemma_len_subset(self.living(), o.living().remove(id));
            assert(o.living().contains(id));
            if o.relations_consistent() {
                assert(to_delete@.subrange(0, to_delete@.len() as int) == to_delete@);
                assert forall|i: int, c: ComponentId|
                    self.entities.slot_alive(i) && o.valid_cid(c) && c.spec_is_relation() implies #[trigger] self.partners(
                    i,
                    c,
                ).to_multiset().count(id as u32) == to_delete@.subrange(0, to_delete@.len() as int).to_multiset().count(
                    (c, i as u32),
                ) by {
                    assert(self.same_entity(&o, i));
                    Self::lemma_same_entity_partners(self, &o, i, c);
                    o.lemma_mirror_any_side(i as u32, id as u32, c);
                    o.lemma_all_entries_count(id, c, i as u32);
                }
            }
        }
        // the partners forget `e`
        let mut k: usize = 0;
        while k < to_delete.len()
            invariant
                self.wf(),
                o.wf(),
                self.shrunk_from(&o),
                self.entities.deferred_spec() == 0,
                !self.entities.slot_alive(id),
                id == e.id.0,
                self.living().subset_of(o.living().remove(id)),
                o.living().contains(id),
                forall|j: int|
                    0 <= j < to_delete@.len() ==> o.valid_cid((#[trigger] to_delete@[j]).0)
                        && to_delete@[j].0.spec_is_relation(),
                0 <= k <= to_delete@.len(),
                forall|i: int| #[trigger] self.entities.slot_alive(i) <==> (o.entities.slot_alive(i) && i != id),
                self.entities.free_list() == seq![id as usize] + o.entities.free_list(),
                self.entities.gen_of(id) == next_generation(e.generation.0),
                forall|i: int|
                    0 <= i < o.entities.count() && i != id ==> #[trigger] self.entities.gen_of(i)
                        == o.entities.gen_of(i),
                o.relations_consistent() ==> self.archetypes@.len() >= BITSET_CAPACITY
                    || self.pending_removals(&o, id as u32, to_delete@.subrange(k as int, to_delete@.len() as int)),
                o.archetypes@.len() <= self.archetypes@.len(),
            decreases to_delete@.len() - k,
        {
            let (c, y) = to_delete[k];
            let ghost s0 = *self;
            proof {
                assert(o.valid_cid(to_delete@[k as int].0));
                assert(self.valid_cid(c));
                lemma_rest_count(to_delete@, k as int);
            }
            if self.entities.is_slot_alive(EntityId(y)) && self.archetypes.len() < BITSET_CAPACITY {
                let other = self.entities.get_from_id(EntityId(y));
                let ghost m = *self;
                self.unrelate_one(c, other, e.id.0);
                proof {
                    Self::lemma_unrelated_shrinks(self, &m, y as int, c, e.id.0);
                    Self::lemma_shrunk_trans(self, &m, &o);
                    assert forall|i: int| self.living().contains(i) implies o.living().remove(id).contains(i) by {
                        assert(m.living().contains(i));
                    }
                    if o.relations_consistent() && m.pending_removals(&o, id as u32, to_delete@.subrange(k as int, to_delete@.len() as int)) {
                        let rest = to_delete@.subrange(k + 1, to_delete@.len() as int);
                        assert forall|i: int, c2: ComponentId|
                            self.entities.slot_alive(i) && o.valid_cid(c2) && c2.spec_is_relation() implies #[trigger] self.partners(
                            i,
                            c2,
                        ).to_multiset().count(id as u32) == rest.to_multiset().count((c2, i as u32)) by {
                            assert(m.partners(i, c2).to_multiset().count(id as u32) == to_delete@.subrange(k as int, to_delete@.len() as int).to_multiset().count((c2, i as u32)));
                            if i == y && c2 == c {
                                lemma_remove_first_multiset(m.partners(y as int, c), id as u32);
                            } else if i != y {
                                assert(self.same_entity(&m, i));
                                Self::lemma_same_entity_partners(self, &m, i, c2);
                            } else {
                                assert(m.sized(c2) == self.sized(c2));
                                Self::lemma_partners_same(self, &m, i, c2);
                            }
                        }
                    }
                }
            } else {
                proof {
                    if o.relations_consistent() && !(self.archetypes@.len() >= BITSET_CAPACITY) {
                        assert(!self.entities.slot_alive(y as int));
                        let rest = to_delete@.subrange(k + 1, to_delete@.len() as int);
                        assert forall|i: int, c2: ComponentId|
                            self.entities.slot_alive(i) && o.valid_cid(c2) && c2.spec_is_relation() implies #[trigger] self.partners(
                            i,
                            c2,
                        ).to_multiset().count(id as u32) == rest.to_multiset().count((c2, i as u32)) by {
                            assert(i as u32 != y);
                        }
                    }
                }
            }
            k += 1;
        }
        proof {
            if o.relations_consistent() && !(self.archetypes@.len() >= BITSET_CAPACITY) {
                let rest = to_delete@.subrange(k as int, to_delete@.len() as int);
                assert(rest =~= Seq::<(ComponentId, u32)>::empty());
                assert(rest.to_multiset().len() == 0) by {
                    broadcast use vstd::seq_lib::group_to_multiset_ensures;
                }
                assert(rest.to_multiset() =~= vstd::multiset::Multiset::empty()) by {
                    broadcast use vstd::multiset::group_multiset_properties;
                }
                assert forall|i: int, c: ComponentId|
                    self.entities.slot_alive(i) && o.valid_cid(c) && c.spec_is_relation() implies #[trigger] self.partners(
                    i,
                    c,
                ).to_multiset().count(id as u32) == 0 by {
                    assert(to_delete@.subrange(k as int, to_delete@.len() as int).to_multiset().count((c, i as u32)) == 0);
                }
                Self::lemma_consistent_without(self, &o, id);
            }
        }
        // cascading destruction
        proof {
            assert(self.entities.free_list() =~= Seq::<usize>::empty() + seq![id as usize] + o.entities.free_list());
            assert(self.freed_from(&o, id, Seq::<usize>::empty()));
        }
        let mut k: usize = 0;
        while k < to_destroy.len()
            invariant
                self.wf(),
                o.wf(),
                o == *old(self),
                self.shrunk_from(&o),
                self.entities.deferred_spec() == 0,
                !self.entities.slot_alive(id),
                id == e.id.0,
                self.living().subset_of(o.living().remove(id)),
                o.living().contains(id),
                0 <= k <= to_destroy@.len(),
                forall|j: int| 0 <= j < k ==> !self.entities.slot_alive(#[trigger] to_destroy@[j] as int),
                to_destroy@ == o.cascade_targets(id),
                o.entities.slot_alive(id),
                self.entities.gen_of(id) == next_generation(e.generation.0),
                forall|i: int|
                    0 <= i < o.entities.count() && !o.entities.slot_alive(i) ==> #[trigger] self.entities.gen_of(i)
                        == o.entities.gen_of(i),
                exists|d: Seq<usize>| #[trigger] self.freed_from(&o, id, d),
                forall|i: int|
                    o.entities.slot_alive(i) && !#[trigger] self.entities.slot_alive(i) ==> i == id
                        || exists|n: nat| #[trigger] o.cascade_reaches(id, i as u32, n),
                o.relations_consistent() ==> self.relations_consistent() || self.archetypes@.len()
                    >= BITSET_CAPACITY,
                forall|x: int, y: u32|
                    o.entities.slot_alive(x) && !self.entities.slot_alive(x) && x != id
                        && #[trigger] o.cascade_targets(x).contains(y) ==> !self.entities.slot_alive(y as int),
            decreases to_destroy@.len() - k,
        {
            let y = to_destroy[k];
            if self.entities.is_slot_alive(EntityId(y)) {
                let other = self.entities.get_from_id(EntityId(y));
                let ghost m = *self;
                proof {
                    o.lemma_living_finite();
                    m.lemma_living_finite();
                    vstd::set_lib::lemma_len_subset(m.living(), o.living().remove(id));
                    assert(o.living().remove(id).len() == o.living().len() - 1);
                    assert(m.living().len() < o.living().len());
                    assert(o.living() == old(self).living());
                }
                self.destroy_inner(other);
                proof {
                    let dm = choose|d: Seq<usize>| #[trigger] m.freed_from(&o, id, d);
                    let dn = choose|d: Seq<usize>| #[trigger] self.freed_from(&m, y as int, d);
                    let d2 = dn + seq![y as usize] + dm;
                    assert(self.entities.free_list() =~= d2 + seq![id as usize] + o.entities.free_list());
                    assert forall|j: int| 0 <= j < d2.len() implies o.entities.slot_alive(#[trigger] d2[j] as int)
                        && !self.entities.slot_alive(d2[j] as int) && d2[j] != id by {
                        if j < dn.len() {
                            assert(d2[j] == dn[j]);
                            assert(m.entities.slot_alive(dn[j] as int));
                        } else if j == dn.len() {
                            assert(d2[j] == y as usize);
                        } else {
                            assert(d2[j] == dm[j - dn.len() - 1]);
                            assert(!m.entities.slot_alive(dm[j - dn.len() - 1] as int));
                        }
                    }
                    assert(self.freed_from(&o, id, d2));
                    assert forall|i: int|
                        o.entities.slot_alive(i) && !#[trigger] self.entities.slot_alive(i) implies i == id
                            || exists|n: nat| #[trigger] o.cascade_reaches(id, i as u32, n) by {
                        if m.entities.slot_alive(i) {
                            if i != y as int {
                                let n = choose|n: nat| #[trigger] m.cascade_reaches(y as int, i as u32, n);
                                Self::lemma_reaches_shrunk(&m, &o, y as int, i as u32, n);
                                assert(o.cascade_targets(id).contains(y)) by {
                                    assert(to_destroy@[k as int] == y);
                                }
                                assert(o.cascade_reaches(id, i as u32, n + 1));
                            } else {
                                assert(o.cascade_targets(id).contains(y)) by {
                                    assert(to_destroy@[k as int] == y);
                                }
                                assert(o.cascade_reaches(id, i as u32, 0));
                            }
                        }
                    }
                    assert forall|x: int, yy: u32|
                        o.entities.slot_alive(x) && !self.entities.slot_alive(x) && x != id
                            && #[trigger] o.cascade_targets(x).contains(yy) implies !self.entities.slot_alive(yy as int) by {
                        if m.entities.slot_alive(x) {
                            if m.entities.slot_alive(yy as int) {
                                Self::lemma_cascade_kept(&m, &o, x, yy);
                            }
                        }
                    }
                    Self::lemma_shrunk_trans(self, &m, &o);
                    assert forall|i: int| self.living().contains(i) implies o.living().remove(id).contains(i) by {
                        assert(m.living().contains(i));
                    }
                    assert forall|j: int| 0 <= j < k + 1 implies !self.entities.slot_alive(#[trigger] to_destroy@[j] as int) by {
                        if j < k {
                            assert(!m.entities.slot_alive(to_destroy@[j] as int));
                        }
                    }
                }
            }
            k += 1;
        }
        proof {
            assert forall|y: u32| #[trigger] o.cascade_targets(id).contains(y) implies !self.entities.slot_alive(y as int) by {
                let j = choose|j: int| 0 <= j < to_destroy@.len() && to_destroy@[j] == y;
            }
        }
    }
}

impl<V> Bookkeeping<V> {
    /// Destroys the entity `e`, after realizing the deferred creations: its row and slot go,
    /// each partner listed in one of its relations loses one occurrence of it per listing
    /// (a side whose partners run out is removed), and the targets of its cascading relations
    /// are destroyed in turn, and theirs, along every chain of cascading relations. Nothing
    /// happens to a dead entity. Every other entity stays alive with its generation, its
    /// components and their values; its partner lists lose only the destroyed ids. The slot
    /// of `e` gets the next generation and goes to the free list, in front of the slots that
    /// were free before and behind those of the entities the cascade destroyed.
    /// A listed partner whose slot is not alive or that lacks the other side is passed over,
    /// and so is the clean-up of a partner once the archetype sets are full.
    pub fn destroy(&mut self, e: Entity)
        requires
            old(self).wf(),
            e.generation.0 % 2 == 1,
            old(self).entities.count() + old(self).entities.deferred_spec() < u32::MAX,
        ensures
            final(self).wf(),
            final(self).entities.deferred_spec() == 0,
            !final(self).alive(e),
            forall|i: int|
                #[trigger] final(self).entities.slot_alive(i) ==> old(self).entities.slot_alive(i)
                    || exists|k: nat|
                    k < old(self).entities.deferred_spec() && old(self).entities.deferred_entity(
                        k,
                    ).id.0 == i,
            old(self).entities.deferred_spec() == 0 ==> final(self).shrunk_from(old(self)),
            old(self).entities.deferred_spec() == 0 && old(self).alive(e) ==> forall|y: u32, n: nat|
                #[trigger] old(self).cascade_reaches(e.id.0 as int, y, n) ==> !final(self).entities.slot_alive(
                    y as int,
                ),
            exists|mid: Self|
                {
                    &&& mid.realizes(old(self))
                    &&& final(self).shrunk_from(&mid)
                    &&& final(self).cascade_closed(&mid)
                    &&& old(self).alive(e) ==> forall|y: u32, n: nat|
                        #[trigger] mid.cascade_reaches(e.id.0 as int, y, n) ==> !final(self).entities.slot_alive(
                            y as int,
                        )
                    &&& old(self).alive(e) ==> forall|y: u32|
                        #[trigger] mid.cascade_targets(e.id.0 as int).contains(y)
                            ==> !final(self).entities.slot_alive(y as int)
                    &&& forall|i: int|
                        mid.entities.slot_alive(i) && !#[trigger] final(self).entities.slot_alive(i) ==> i
                            == e.id.0 || exists|n: nat| #[trigger] mid.cascade_reaches(e.id.0 as int, i as u32, n)
                    &&& old(self).alive(e) ==> exists|d: Seq<usize>| #[trigger] final(self).freed_from(&mid, e.id.0 as int, d)
                },
            old(self).alive(e) ==> final(self).entities.gen_of(e.id.0 as int) == next_generation(e.generation.0),
            old(self).entities.deferred_spec() == 0 ==> forall|i: int|
                old(self).entities.slot_alive(i) && !#[trigger] final(self).entities.slot_alive(i) ==> i
                    == e.id.0 || exists|n: nat| #[trigger] old(self).cascade_reaches(e.id.0 as int, i as u32, n),
            old(self).entities.deferred_spec() == 0 && old(self).alive(e) ==> exists|d: Seq<usize>|
                #[trigger] final(self).freed_from(old(self), e.id.0 as int, d),
            old(self).entities.deferred_spec() == 0 && old(self).alive(e) ==> forall|y: u32|
                #[trigger] old(self).cascade_targets(e.id.0 as int).contains(y)
                    ==> !final(self).entities.slot_alive(y as int),
            old(self).alive(e) ==> !final(self).entities.slot_alive(e.id.0 as int),
            old(self).relations_consistent() ==> final(self).relations_consistent()
                || final(self).archetypes@.len() >= BITSET_CAPACITY,
            old(self).relations_consistent() && old(self).alive(e) && final(self).archetypes@.len()
                < BITSET_CAPACITY ==> forall|i: int, c: ComponentId|
                final(self).entities.slot_alive(i) && final(self).valid_cid(c) && c.spec_is_relation()
                    ==> !(#[trigger] final(self).partners(i, c)).contains(e.id.0),
    {
        self.realize_deferred();
        let ghost mid = *self;
        proof {
            if old(self).entities.deferred_spec() == 0 {
                // nothing was realized
                let o = old(self);
                assert forall|i: int| #[trigger] mid.entities.slot_alive(i) implies o.entities.slot_alive(i) by {}
                assert forall|i: int| o.entities.slot_alive(i) implies #[trigger] mid.entities.slot_alive(i) by {
                    assert(mid.same_entity(o, i));
                }
                Self::lemma_removed_shrinks_none(&mid, o);
            }
        }
        self.destroy_inner(e);
        proof {
            let o = old(self);
            assert(mid.realizes(o));
            if o.alive(e) {
                assert(mid.same_entity(o, e.id.0 as int));
            }
            if o.entities.deferred_spec() == 0 {
                assert forall|i: int|
                    o.entities.slot_alive(i) && !#[trigger] self.entities.slot_alive(i) implies i == e.id.0
                        || exists|n: nat| #[trigger] o.cascade_reaches(e.id.0 as int, i as u32, n) by {
                    assert(mid.same_entity(o, i));
                    if i != e.id.0 {
                        let n = choose|n: nat| #[trigger] mid.cascade_reaches(e.id.0 as int, i as u32, n);
                        Self::lemma_reaches_shrunk(&mid, o, e.id.0 as int, i as u32, n);
                    }
                }
                if o.alive(e) {
                    let d = choose|d: Seq<usize>| #[trigger] self.freed_from(&mid, e.id.0 as int, d);
                    assert forall|j: int| 0 <= j < d.len() implies o.entities.slot_alive(#[trigger] d[j] as int) by {
                        assert(mid.entities.slot_alive(d[j] as int));
                    }
                    assert(self.freed_from(o, e.id.0 as int, d));
                }
            }
            if o.alive(e) {
                assert(mid.same_entity(o, e.id.0 as int));
                assert forall|y: u32, n: nat| #[trigger] mid.cascade_reaches(e.id.0 as int, y, n) implies !self.entities.slot_alive(
                    y as int,
                ) by {
                    Self::lemma_closed_reaches(self, &mid, e.id.0 as int, y, n);
                }
            }
            if o.alive(e) {
                assert(mid.same_entity(o, e.id.0 as int));
                assert(mid.alive(e));
            }
            if o.entities.deferred_spec() == 0 {
                assert forall|x: int, y: u32|
                    o.entities.slot_alive(x) && !self.entities.slot_alive(x) && #[trigger] o.cascade_targets(x).contains(y)
                        implies !self.entities.slot_alive(y as int) by {
                    assert(mid.same_entity(o, x));
                    Self::lemma_same_columns(&mid, o, x);
                    Self::lemma_cascade_same(&mid, o, x, o.slot_columns(x).len() as int);
                    assert(mid.entities.slot_alive(x));
                    assert(mid.cascade_targets(x).contains(y));
                }
                if o.alive(e) {
                    assert forall|y: u32, n: nat| #[trigger] o.cascade_reaches(e.id.0 as int, y, n) implies !self.entities.slot_alive(
                        y as int,
                    ) by {
                        Self::lemma_closed_reaches(self, o, e.id.0 as int, y, n);
                    }
                }
                Self::lemma_shrunk_trans(self, &mid, o);
                if o.alive(e) {
                    assert(mid.alive(e)) by {
                        assert(mid.same_entity(o, e.id.0 as int));
                    }
                    assert(mid.same_entity(o, e.id.0 as int));
                    Self::lemma_same_columns(&mid, o, e.id.0 as int);
                    Self::lemma_cascade_same(&mid, o, e.id.0 as int, o.slot_columns(e.id.0 as int).len() as int);
                    assert(mid.cascade_targets(e.id.0 as int) == o.cascade_targets(e.id.0 as int));
                }
            }
            assert forall|i: int| #[trigger] self.entities.slot_alive(i) implies o.entities.slot_alive(i)
                || exists|k: nat| k < o.entities.deferred_spec() && o.entities.deferred_entity(k).id.0 == i by {
                assert(mid.entities.slot_alive(i));
            }
            if o.alive(e) {
                assert(mid.same_entity(o, e.id.0 as int));
                assert(mid.alive(e));
            }
            if o.relations_consistent() && o.alive(e) && self.archetypes@.len() < BITSET_CAPACITY {
                assert forall|i: int, c: ComponentId|
                    self.entities.slot_alive(i) && self.valid_cid(c) && c.spec_is_relation() implies !(
                    #[trigger] self.partners(i, c)).contains(e.id.0) by {
                    assert(self.partners_alive(i, c));
                    if self.partners(i, c).contains(e.id.0) {
                        let k = choose|k: int| 0 <= k < self.partners(i, c).len() && self.partners(i, c)[k] == e.id.0;
                        assert(self.entities.slot_alive(self.partners(i, c)[k] as int));
                    }
                }
            }
        }
    }

    /// A state that kept all living entities as they were is shrunk from the old one.
    proof fn lemma_removed_shrinks_none(new: &Self, old: &Self)
        requires
            old.wf(),
            new.same_tables(old),
            new.entities.count() == old.entities.count(),
            new.entities.deferred_spec() == old.entities.deferred_spec(),
            forall|i: int| #[trigger] new.entities.slot_alive(i) <==> old.entities.slot_alive(i),
            forall|i: int| old.entities.slot_alive(i) ==> #[trigger] new.same_entity(old, i),
        ensures
            new.shrunk_from(old),
    {
        Self::lemma_removed_shrinks(new, old, -1);
    }

    /// The cascade targets depend only on the archetype columns and the partner lists.
    proof fn lemma_cascade_same(new: &Self, old: &Self, i: int, n: int)
        requires
            old.wf(),
            old.entities.slot_alive(i),
            new.same_entity(old, i),
            new.same_components(old),
            new.slot_columns(i) == old.slot_columns(i),
            0 <= n <= old.slot_columns(i).len(),
        ensures
            new.cascade_upto(i, n) == old.cascade_upto(i, n),
        decreases n,
    {
        if n > 0 {
            Self::lemma_cascade_same(new, old, i, n - 1);
            let c = old.slot_columns(i)[n - 1];
            let a = old.slot_arch(i);
            assert(old.archetypes@[a].components@.contains(c));
            assert(old.exact_archetype@[a]@.contains(c));
            Self::lemma_same_entity_partners(new, old, i, c);
        }
    }
}

impl<V> Bookkeeping<V> {
    /// A slot with the same components in the same tables has the same archetype columns.
    proof fn lemma_same_columns(new: &Self, old: &Self, i: int)
        requires
            new.wf(),
            old.wf(),
            new.same_tables(old),
            old.entities.slot_alive(i),
            new.same_entity(old, i),
        ensures
            new.slot_columns(i) == old.slot_columns(i),
    {
        let an = new.slot_arch(i);
        let ao = old.slot_arch(i);
        assert(new.key(ao) == old.key(ao));
        if an != ao {
            assert(new.exact_archetype@[an]@ != new.exact_archetype@[ao]@);
        }
        let cn = new.archetypes@[an].components@;
        let co = old.archetypes@[ao].components@;
        assert(new.archetypes@[an].wf() && old.archetypes@[ao].wf());
        assert forall|c: ComponentId| cn.contains(c) <==> co.contains(c) by {
            if cn.contains(c) {
                assert(new.exact_archetype@[an]@.contains(c));
                assert(new.valid_cid(c));
            }
            if co.contains(c) {
                assert(old.exact_archetype@[ao]@.contains(c));
                assert(old.valid_cid(c));
            }
        }
        crate::archetype::lemma_sorted_eq(cn, co);
    }
}

impl<V> Bookkeeping<V> {
    /// Every living slot lists the dead slot `x` in a relation side exactly as often as the
    /// pair of that side and the slot occurs among the `pending` relation entries.
    pub open spec fn pending_removals(&self, old: &Self, x: u32, pending: Seq<(ComponentId, u32)>) -> bool {
        forall|i: int, c: ComponentId|
            self.entities.slot_alive(i) && old.valid_cid(c) && c.spec_is_relation()
                ==> #[trigger] self.partners(i, c).to_multiset().count(x) == pending.to_multiset().count(
                (c, i as u32),
            )
    }

    /// Once no living slot lists the removed slot `x`, the relations are consistent again.
    proof fn lemma_consistent_without(new: &Self, old: &Self, x: int)
        requires
            old.wf(),
            new.wf(),
            old.relations_consistent(),
            new.shrunk_from(old),
            old.entities.slot_alive(x),
            forall|i: int| #[trigger] new.entities.slot_alive(i) <==> (old.entities.slot_alive(i) && i != x),
            forall|i: int, c: ComponentId|
                new.entities.slot_alive(i) && old.valid_cid(c) && c.spec_is_relation()
                    ==> #[trigger] new.partners(i, c).to_multiset().count(x as u32) == 0,
        ensures
            new.relations_consistent(),
    {
        broadcast use vstd::seq_lib::group_to_multiset_ensures;

        assert forall|i: int, c: ComponentId|
            new.entities.slot_alive(i) && new.valid_cid(c) && c.spec_is_relation() implies #[trigger] new.partners_alive(
            i,
            c,
        ) by {
            assert(old.valid_cid(c));
            assert(old.partners_alive(i, c));
            assert forall|k: int| 0 <= k < new.partners(i, c).len() implies new.entities.slot_alive(
                #[trigger] new.partners(i, c)[k] as int,
            ) by {
                let y = new.partners(i, c)[k];
                old.entities.lemma_free_list();
                assert(new.partners(i, c).to_multiset().count(x as u32) == 0);
                assert(new.partners(i, c).contains(y));
                assert(new.partners(i, c).to_multiset().count(y) > 0);
                assert(old.partners(i, c).to_multiset().count(y) > 0);
                assert(old.partners(i, c).contains(y));
                let j = choose|j: int| 0 <= j < old.partners(i, c).len() && old.partners(i, c)[j] == y;
                assert(old.entities.slot_alive(old.partners(i, c)[j] as int));
                assert(y as int != x);
            }
        }
        assert forall|a: u32, b: u32, c: ComponentId|
            new.entities.slot_alive(a as int) && new.entities.slot_alive(b as int) && new.valid_cid(c)
                && c.spec_is_relation() && !c.spec_is_target() implies #[trigger] new.partners(
            a as int,
            c,
        ).to_multiset().count(b) == new.partners(b as int, c.spec_flip_target()).to_multiset().count(
            a,
        ) by {
            assert(old.valid_cid(c));
            old.lemma_flip_valid_any(c);
            assert(new.partners(a as int, c).to_multiset().count(b) == old.partners(a as int, c).to_multiset().count(b));
            assert(new.partners(b as int, c.spec_flip_target()).to_multiset().count(a) == old.partners(b as int, c.spec_flip_target()).to_multiset().count(a));
        }
    }
}


} // verus!
