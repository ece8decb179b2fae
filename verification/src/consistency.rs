//! Consistency of relations: each entry has its mirror on the other side, and only living
//! entities are listed. Adding and removing relations keep it.
use vstd::prelude::*;

use crate::bookkeeping::Bookkeeping;
use crate::component::ComponentId;
use crate::relation_vec::{lemma_remove_all_counts, lemma_remove_first_multiset, remove_all, remove_first};
use crate::relations::relate_step;

verus! {

impl<V> Bookkeeping<V> {
    /// Every relation entry is mirrored: `x` lists `y` in an origin side exactly as often as
    /// `y` lists `x` in the target side; and living entities list living entities only.
    pub open spec fn relations_consistent(&self) -> bool {
        &&& forall|x: int, c: ComponentId|
            self.entities.slot_alive(x) && self.valid_cid(c) && c.spec_is_relation()
                ==> #[trigger] self.partners_alive(x, c)
        &&& forall|x: u32, y: u32, c: ComponentId|
            self.entities.slot_alive(x as int) && self.entities.slot_alive(y as int)
                && self.valid_cid(c) && c.spec_is_relation() && !c.spec_is_target()
                ==> #[trigger] self.partners(x as int, c).to_multiset().count(y) == self.partners(
                y as int,
                c.spec_flip_target(),
            ).to_multiset().count(x)
    }

    /// A component has one valid origin side.
    proof fn lemma_one_origin_side(&self, c1: ComponentId, c2: ComponentId)
        requires
            self.wf(),
            self.valid_cid(c1),
            self.valid_cid(c2),
            !c1.spec_is_target(),
            !c2.spec_is_target(),
            c1.spec_id() == c2.spec_id(),
        ensures
            c1 == c2,
    {
        let o = self.components@[c1.spec_id() as int].id;
        if c1 != o || c2 != o {
            o.lemma_flip_target();
        }
    }

    /// A relation side and its other side belong to the same component.
    proof fn lemma_flip_same_id(c: ComponentId)
        requires
            c.spec_is_relation(),
        ensures
            c.spec_flip_target().spec_id() == c.spec_id(),
            c.spec_flip_target().spec_flip_target() == c,
    {
        c.lemma_flip_target();
    }

    /// One step that changes the partners of `x0` in `cid` and of `y0` in the other side, and
    /// nothing else, keeps the relations consistent when the counts of the two sides move
    /// together.
    pub proof fn lemma_consistent_step(new: &Self, old: &Self, cid: ComponentId, x0: u32, y0: u32)
        requires
            old.wf(),
            new.wf(),
            old.relations_consistent(),
            old.valid_cid(cid),
            cid.spec_is_relation(),
            !cid.spec_is_target(),
            new.same_components(old),
            forall|i: int| #[trigger] new.entities.slot_alive(i) <==> old.entities.slot_alive(i),
            old.entities.slot_alive(x0 as int),
            old.entities.slot_alive(y0 as int),
            forall|i: int, c: ComponentId|
                old.entities.slot_alive(i) && old.valid_cid(c) && !(i == x0 && c == cid) && !(i == y0
                    && c == cid.spec_flip_target()) ==> #[trigger] new.partners(i, c) == old.partners(i, c),
            forall|k: int|
                0 <= k < new.partners(x0 as int, cid).len() ==> old.entities.slot_alive(
                    #[trigger] new.partners(x0 as int, cid)[k] as int,
                ),
            forall|k: int|
                0 <= k < new.partners(y0 as int, cid.spec_flip_target()).len() ==> old.entities.slot_alive(
                    #[trigger] new.partners(y0 as int, cid.spec_flip_target())[k] as int,
                ),
            // the two changed lists move together
            !(x0 == y0 && cid.spec_flip_target() == cid) ==> forall|y: u32|
                #[trigger] new.partners(x0 as int, cid).to_multiset().count(y) - old.partners(
                    x0 as int,
                    cid,
                ).to_multiset().count(y) == (if y == y0 {
                    new.partners(y0 as int, cid.spec_flip_target()).to_multiset().count(x0) - old.partners(
                        y0 as int,
                        cid.spec_flip_target(),
                    ).to_multiset().count(x0)
                } else {
                    0int
                }),
            !(x0 == y0 && cid.spec_flip_target() == cid) ==> forall|x: u32|
                x != x0 ==> #[trigger] new.partners(y0 as int, cid.spec_flip_target()).to_multiset().count(x)
                    == old.partners(y0 as int, cid.spec_flip_target()).to_multiset().count(x),
            x0 == y0 && cid.spec_flip_target() == cid ==> forall|y: u32|
                y != x0 ==> #[trigger] new.partners(x0 as int, cid).to_multiset().count(y)
                    == old.partners(x0 as int, cid).to_multiset().count(y),
        ensures
            new.relations_consistent(),
    {
        let f = cid.spec_flip_target();
        Self::lemma_flip_same_id(cid);
        old.lemma_flip_valid_any(cid);
        assert forall|x: int, c: ComponentId|
            new.entities.slot_alive(x) && new.valid_cid(c) && c.spec_is_relation() implies #[trigger] new.partners_alive(
            x,
            c,
        ) by {
            assert(old.valid_cid(c));
            if !(x == x0 && c == cid) && !(x == y0 && c == f) {
                assert(new.partners(x, c) == old.partners(x, c));
                assert(old.partners_alive(x, c));
            }
        }
        assert forall|x: u32, y: u32, c: ComponentId|
            new.entities.slot_alive(x as int) && new.entities.slot_alive(y as int) && new.valid_cid(c)
                && c.spec_is_relation() && !c.spec_is_target() implies #[trigger] new.partners(
            x as int,
            c,
        ).to_multiset().count(y) == new.partners(y as int, c.spec_flip_target()).to_multiset().count(
            x,
        ) by {
            assert(old.valid_cid(c));
            Self::lemma_flip_same_id(c);
            old.lemma_flip_valid_any(c);
            let fc = c.spec_flip_target();
            assert(old.partners(x as int, c).to_multiset().count(y) == old.partners(y as int, fc).to_multiset().count(x));
            if c.spec_id() != cid.spec_id() {
                assert(new.partners(x as int, c) == old.partners(x as int, c));
                assert(new.partners(y as int, fc) == old.partners(y as int, fc));
            } else {
                old.lemma_one_origin_side(c, cid);
                let lx = new.partners(x as int, cid).to_multiset().count(y) - old.partners(x as int, cid).to_multiset().count(y);
                let ry = new.partners(y as int, f).to_multiset().count(x) - old.partners(y as int, f).to_multiset().count(x);
                if x == y && f == cid {
                } else if x0 == y0 && f == cid {
                    // one list changed, only in its count of `x0`
                    if x == x0 {
                        assert(y != x0);
                        assert(new.partners(y as int, f) == old.partners(y as int, f));
                    } else if y == x0 {
                        assert(new.partners(x as int, cid) == old.partners(x as int, cid));
                    } else {
                        assert(new.partners(x as int, cid) == old.partners(x as int, cid));
                        assert(new.partners(y as int, f) == old.partners(y as int, f));
                    }
                } else {
                    // the list of `x0` in `cid` changed only in its count of `y0`, the list of
                    // `y0` in `f` only in its count of `x0`, by the same amount
                    let a = if x == x0 { lx } else { 0int };
                    if x == x0 {
                        assert(lx == if y == y0 { new.partners(y0 as int, f).to_multiset().count(x0) - old.partners(y0 as int, f).to_multiset().count(x0) } else { 0int });
                    } else if !(x == y0 && cid == f) {
                        assert(new.partners(x as int, cid) == old.partners(x as int, cid));
                    }
                    if y == y0 {
                        if x != x0 {
                            assert(new.partners(y0 as int, f).to_multiset().count(x) == old.partners(y0 as int, f).to_multiset().count(x));
                        }
                    } else if !(y == x0 && f == cid) {
                        assert(new.partners(y as int, f) == old.partners(y as int, f));
                    }
                    if x == y0 && cid == f {
                        // the list of `x` is the changed list of `y0`
                        if y != x0 {
                            assert(new.partners(y0 as int, f).to_multiset().count(y) == old.partners(y0 as int, f).to_multiset().count(y));
                        }
                    }
                    if y == x0 && f == cid {
                        if x != y0 {
                            assert(new.partners(x0 as int, cid).to_multiset().count(x) - old.partners(x0 as int, cid).to_multiset().count(x) == 0);
                        }
                    }
                }
            }
        }
    }
}

/// Relating without overwriting pushes the partner.
pub proof fn lemma_relate_step_push(s: Seq<u32>, x: u32, exclusive: bool)
    requires
        !exclusive || s.len() == 0,
    ensures
        relate_step(s, x, exclusive) == s.push(x),
        relate_step(s, x, exclusive).to_multiset() == s.to_multiset().insert(x),
{
    broadcast use vstd::seq_lib::group_to_multiset_ensures;

}

/// Relating to `x` and then taking one `x` out gives back the same partners, counted.
pub proof fn lemma_relate_then_unrelate(s: Seq<u32>, x: u32)
    ensures
        remove_first(relate_step(s, x, false), x).to_multiset() == s.to_multiset(),
{
    broadcast use vstd::seq_lib::group_to_multiset_ensures;

    lemma_remove_first_multiset(s.push(x), x);
    assert(s.push(x).to_multiset() == s.to_multiset().insert(x));
    assert(s.to_multiset().insert(x).remove(x) =~= s.to_multiset());
}

impl<V> Bookkeeping<V> {
    /// The frame of a relation step on the slots other than `x0` and `y0`.
    proof fn lemma_others_same(new: &Self, old: &Self, x0: int, y0: int)
        requires
            old.wf(),
            new.same_except2(old, x0, y0),
        ensures
            forall|i: int, c: ComponentId|
                old.entities.slot_alive(i) && old.valid_cid(c) && i != x0 && i != y0
                    ==> #[trigger] new.partners(i, c) == old.partners(i, c),
    {
        assert forall|i: int, c: ComponentId|
            old.entities.slot_alive(i) && old.valid_cid(c) && i != x0 && i != y0 implies #[trigger] new.partners(
            i,
            c,
        ) == old.partners(i, c) by {
            assert(new.same_entity(old, i));
            Self::lemma_same_entity_partners(new, old, i, c);
        }
    }

    /// Adding a relation keeps the relations consistent, unless it overwrites the partner of
    /// an exclusive relation.
    pub proof fn lemma_add_consistent(new: &Self, old: &Self, cid: ComponentId, x0: u32, y0: u32)
        requires
            old.wf(),
            new.wf(),
            old.relations_consistent(),
            old.valid_cid(cid),
            cid.spec_is_relation(),
            !cid.spec_is_target(),
            old.entities.slot_alive(x0 as int),
            old.entities.slot_alive(y0 as int),
            new.same_except2(old, x0 as int, y0 as int),
            forall|i: int, c: ComponentId|
                (i == x0 || i == y0) && old.valid_cid(c) && !(i == x0 && c == cid) && !(i == y0 && c
                    == cid.spec_flip_target()) ==> #[trigger] new.partners(i, c) == old.partners(i, c),
            x0 == y0 && cid.spec_flip_target() == cid ==> new.partners(x0 as int, cid) == relate_step(
                relate_step(old.partners(x0 as int, cid), y0, cid.spec_is_exclusive()),
                x0,
                cid.spec_is_exclusive(),
            ),
            !(x0 == y0 && cid.spec_flip_target() == cid) ==> {
                &&& new.partners(x0 as int, cid) == relate_step(
                    old.partners(x0 as int, cid),
                    y0,
                    cid.spec_is_exclusive(),
                )
                &&& new.partners(y0 as int, cid.spec_flip_target()) == relate_step(
                    old.partners(y0 as int, cid.spec_flip_target()),
                    x0,
                    cid.spec_flip_target().spec_is_exclusive(),
                )
            },
            !cid.spec_is_exclusive() || (old.partners(x0 as int, cid).len() == 0 && (
            cid.spec_flip_target() != cid || x0 == y0 || old.partners(y0 as int, cid).len() == 0)),
        ensures
            new.relations_consistent(),
    {
        broadcast use vstd::seq_lib::group_to_multiset_ensures;

        let f = cid.spec_flip_target();
        cid.lemma_flip_target();
        old.lemma_flip_valid_any(cid);
        Self::lemma_others_same(new, old, x0 as int, y0 as int);
        let px = old.partners(x0 as int, cid);
        let py = old.partners(y0 as int, f);
        assert(old.partners_alive(x0 as int, cid));
        assert(old.partners_alive(y0 as int, f));
        if x0 == y0 && f == cid {
            let e = cid.spec_is_exclusive();
            lemma_relate_step_push(px, y0, e);
            let p1 = px.push(y0);
            if e {
                assert(new.partners(x0 as int, cid) =~= seq![x0]);
                assert(px.len() == 0);
                assert(new.partners(x0 as int, cid).to_multiset() =~= px.to_multiset().insert(x0));
            } else {
                lemma_relate_step_push(p1, x0, false);
                assert(new.partners(x0 as int, cid).to_multiset() == px.to_multiset().insert(y0).insert(x0));
            }
            assert forall|k: int| 0 <= k < new.partners(x0 as int, cid).len() implies old.entities.slot_alive(
                #[trigger] new.partners(x0 as int, cid)[k] as int,
            ) by {
                let n = new.partners(x0 as int, cid);
                if !e && k < px.len() {
                    assert(n[k] == px[k]);
                }
            }
        } else {
            lemma_relate_step_push(px, y0, cid.spec_is_exclusive());
            if f.spec_is_exclusive() {
                assert(f == cid);
            }
            lemma_relate_step_push(py, x0, f.spec_is_exclusive());
            assert forall|k: int| 0 <= k < new.partners(x0 as int, cid).len() implies old.entities.slot_alive(
                #[trigger] new.partners(x0 as int, cid)[k] as int,
            ) by {
                if k < px.len() {
                    assert(new.partners(x0 as int, cid)[k] == px[k]);
                }
            }
            assert forall|k: int| 0 <= k < new.partners(y0 as int, f).len() implies old.entities.slot_alive(
                #[trigger] new.partners(y0 as int, f)[k] as int,
            ) by {
                if k < py.len() {
                    assert(new.partners(y0 as int, f)[k] == py[k]);
                }
            }
        }
        assert forall|i: int, c: ComponentId|
            old.entities.slot_alive(i) && old.valid_cid(c) && !(i == x0 && c == cid) && !(i == y0 && c
                == f) implies #[trigger] new.partners(i, c) == old.partners(i, c) by {
            if i != x0 && i != y0 {
            }
        }
        Self::lemma_consistent_step(new, old, cid, x0, y0);
    }

    /// Removing a relation keeps the relations consistent.
    pub proof fn lemma_remove_consistent(new: &Self, old: &Self, cid: ComponentId, x0: u32, y0: u32)
        requires
            old.wf(),
            new.wf(),
            old.relations_consistent(),
            old.valid_cid(cid),
            cid.spec_is_relation(),
            !cid.spec_is_target(),
            old.entities.slot_alive(x0 as int),
            old.entities.slot_alive(y0 as int),
            new.same_except2(old, x0 as int, y0 as int),
            forall|i: int, c: ComponentId|
                (i == x0 || i == y0) && old.valid_cid(c) && !(i == x0 && c == cid) && !(i == y0 && c
                    == cid.spec_flip_target()) ==> #[trigger] new.partners(i, c) == old.partners(i, c),
            x0 == y0 && cid.spec_flip_target() == cid ==> new.partners(x0 as int, cid) == remove_first(
                remove_first(old.partners(x0 as int, cid), y0),
                x0,
            ),
            !(x0 == y0 && cid.spec_flip_target() == cid) ==> {
                &&& new.partners(x0 as int, cid) == remove_first(old.partners(x0 as int, cid), y0)
                &&& new.partners(y0 as int, cid.spec_flip_target()) == remove_first(
                    old.partners(y0 as int, cid.spec_flip_target()),
                    x0,
                )
            },
        ensures
            new.relations_consistent(),
    {
        broadcast use vstd::multiset::group_multiset_axioms;

        let f = cid.spec_flip_target();
        cid.lemma_flip_target();
        old.lemma_flip_valid_any(cid);
        Self::lemma_others_same(new, old, x0 as int, y0 as int);
        let px = old.partners(x0 as int, cid);
        let py = old.partners(y0 as int, f);
        assert(old.partners_alive(x0 as int, cid));
        assert(old.partners_alive(y0 as int, f));
        lemma_remove_first_multiset(px, y0);
        if x0 == y0 && f == cid {
            lemma_remove_first_multiset(remove_first(px, y0), x0);
            Self::lemma_remove_first_alive(old, px, y0);
            Self::lemma_remove_first_alive(old, remove_first(px, y0), x0);
        } else {
            lemma_remove_first_multiset(py, x0);
            Self::lemma_remove_first_alive(old, px, y0);
            Self::lemma_remove_first_alive(old, py, x0);
            // the mirror: both counts were equal before
            assert(old.partners(x0 as int, cid).to_multiset().count(y0) == old.partners(y0 as int, f).to_multiset().count(x0));
        }
        assert forall|i: int, c: ComponentId|
            old.entities.slot_alive(i) && old.valid_cid(c) && !(i == x0 && c == cid) && !(i == y0 && c
                == f) implies #[trigger] new.partners(i, c) == old.partners(i, c) by {
            if i != x0 && i != y0 {
            }
        }
        Self::lemma_consistent_step(new, old, cid, x0, y0);
    }

    /// Removing every copy of a relation keeps the relations consistent.
    pub proof fn lemma_remove_all_consistent(new: &Self, old: &Self, cid: ComponentId, x0: u32, y0: u32)
        requires
            old.wf(),
            new.wf(),
            old.relations_consistent(),
            old.valid_cid(cid),
            cid.spec_is_relation(),
            !cid.spec_is_target(),
            old.entities.slot_alive(x0 as int),
            old.entities.slot_alive(y0 as int),
            new.same_except2(old, x0 as int, y0 as int),
            forall|i: int, c: ComponentId|
                (i == x0 || i == y0) && old.valid_cid(c) && !(i == x0 && c == cid) && !(i == y0 && c
                    == cid.spec_flip_target()) ==> #[trigger] new.partners(i, c) == old.partners(i, c),
            x0 == y0 && cid.spec_flip_target() == cid ==> new.partners(x0 as int, cid) == remove_all(
                remove_all(old.partners(x0 as int, cid), y0),
                x0,
            ),
            !(x0 == y0 && cid.spec_flip_target() == cid) ==> {
                &&& new.partners(x0 as int, cid) == remove_all(old.partners(x0 as int, cid), y0)
                &&& new.partners(y0 as int, cid.spec_flip_target()) == remove_all(
                    old.partners(y0 as int, cid.spec_flip_target()),
                    x0,
                )
            },
        ensures
            new.relations_consistent(),
    {
        let f = cid.spec_flip_target();
        cid.lemma_flip_target();
        old.lemma_flip_valid_any(cid);
        Self::lemma_others_same(new, old, x0 as int, y0 as int);
        let px = old.partners(x0 as int, cid);
        let py = old.partners(y0 as int, f);
        assert(old.partners_alive(x0 as int, cid));
        assert(old.partners_alive(y0 as int, f));
        lemma_remove_all_counts(px, y0);
        if x0 == y0 && f == cid {
            lemma_remove_all_counts(remove_all(px, y0), x0);
            let n = remove_all(remove_all(px, y0), x0);
            assert forall|k: int| 0 <= k < n.len() implies old.entities.slot_alive(#[trigger] n[k] as int) by {
                assert(remove_all(px, y0).contains(n[k]));
                let j = choose|j: int| 0 <= j < remove_all(px, y0).len() && remove_all(px, y0)[j] == n[k];
                assert(px.contains(remove_all(px, y0)[j]));
            }
        } else {
            lemma_remove_all_counts(py, x0);
            let n = remove_all(px, y0);
            assert forall|k: int| 0 <= k < n.len() implies old.entities.slot_alive(#[trigger] n[k] as int) by {
                assert(px.contains(n[k]));
            }
            let m = remove_all(py, x0);
            assert forall|k: int| 0 <= k < m.len() implies old.entities.slot_alive(#[trigger] m[k] as int) by {
                assert(py.contains(m[k]));
            }
            assert(old.partners(x0 as int, cid).to_multiset().count(y0) == old.partners(y0 as int, f).to_multiset().count(x0));
        }
        assert forall|i: int, c: ComponentId|
            old.entities.slot_alive(i) && old.valid_cid(c) && !(i == x0 && c == cid) && !(i == y0 && c
                == f) implies #[trigger] new.partners(i, c) == old.partners(i, c) by {
            if i != x0 && i != y0 {
            }
        }
        Self::lemma_consistent_step(new, old, cid, x0, y0);
    }

    /// Taking an element out keeps the elements living.
    proof fn lemma_remove_first_alive(old: &Self, s: Seq<u32>, x: u32)
        requires
            forall|k: int| 0 <= k < s.len() ==> old.entities.slot_alive(#[trigger] s[k] as int),
        ensures
            forall|k: int|
                0 <= k < remove_first(s, x).len() ==> old.entities.slot_alive(
                    #[trigger] remove_first(s, x)[k] as int,
                ),
    {
        if s.contains(x) {
            crate::relation_vec::lemma_first_index_exists(s, x);
            let i = crate::relation_vec::first_index(s, x);
            assert forall|k: int| 0 <= k < remove_first(s, x).len() implies old.entities.slot_alive(
                #[trigger] remove_first(s, x)[k] as int,
            ) by {
                if k == i {
                    assert(remove_first(s, x)[k] == s[s.len() - 1]);
                } else {
                    assert(remove_first(s, x)[k] == s[k]);
                }
            }
        }
    }
}

impl<V> Bookkeeping<V> {
    /// A state with the same living entities and the same relation lists is consistent too.
    pub proof fn lemma_frame_consistent(new: &Self, old: &Self)
        requires
            old.wf(),
            new.wf(),
            old.relations_consistent(),
            new.same_components(old),
            forall|i: int| #[trigger] new.entities.slot_alive(i) <==> old.entities.slot_alive(i),
            forall|i: int, c: ComponentId|
                old.entities.slot_alive(i) && old.valid_cid(c) && c.spec_is_relation()
                    ==> #[trigger] new.partners(i, c) == old.partners(i, c),
        ensures
            new.relations_consistent(),
    {
        assert forall|x: int, c: ComponentId|
            new.entities.slot_alive(x) && new.valid_cid(c) && c.spec_is_relation() implies #[trigger] new.partners_alive(
            x,
            c,
        ) by {
            assert(old.valid_cid(c));
            assert(old.partners_alive(x, c));
            assert(new.partners(x, c) == old.partners(x, c));
        }
        assert forall|x: u32, y: u32, c: ComponentId|
            new.entities.slot_alive(x as int) && new.entities.slot_alive(y as int) && new.valid_cid(c)
                && c.spec_is_relation() && !c.spec_is_target() implies #[trigger] new.partners(
            x as int,
            c,
        ).to_multiset().count(y) == new.partners(y as int, c.spec_flip_target()).to_multiset().count(
            x,
        ) by {
            assert(old.valid_cid(c));
            old.lemma_flip_valid_any(c);
            assert(new.partners(x as int, c) == old.partners(x as int, c));
            assert(new.partners(y as int, c.spec_flip_target()) == old.partners(y as int, c.spec_flip_target()));
            assert(old.partners(x as int, c).to_multiset().count(y) == old.partners(y as int, c.spec_flip_target()).to_multiset().count(x));
        }
    }

    /// Living entities list only living entities, so none lists a dead slot.
    proof fn lemma_dead_unlisted(&self, i: int, c: ComponentId, y: u32)
        requires
            self.relations_consistent(),
            self.entities.slot_alive(i),
            self.valid_cid(c),
            c.spec_is_relation(),
            !self.entities.slot_alive(y as int),
        ensures
            self.partners(i, c).to_multiset().count(y) == 0,
    {
        broadcast use vstd::seq_lib::group_to_multiset_ensures;

        assert(self.partners_alive(i, c));
        if self.partners(i, c).contains(y) {
            let k = choose|k: int| 0 <= k < self.partners(i, c).len() && self.partners(i, c)[k] == y;
        }
    }

    /// A new living entity without components keeps the relations consistent.
    pub proof fn lemma_fresh_consistent(new: &Self, old: &Self, x: int)
        requires
            old.wf(),
            new.wf(),
            old.relations_consistent(),
            new.same_components(old),
            !old.entities.slot_alive(x),
            forall|i: int| #[trigger] new.entities.slot_alive(i) <==> (old.entities.slot_alive(i) || i == x),
            forall|i: int| old.entities.slot_alive(i) ==> #[trigger] new.same_entity(old, i),
            new.entity_key(x) == Seq::<ComponentId>::empty(),
        ensures
            new.relations_consistent(),
    {
        broadcast use vstd::seq_lib::group_to_multiset_ensures;

        assert forall|i: int, c: ComponentId|
            old.entities.slot_alive(i) && old.valid_cid(c) implies #[trigger] new.partners(i, c) == old.partners(i, c) by {
            assert(new.same_entity(old, i));
            Self::lemma_same_entity_partners(new, old, i, c);
        }
        assert forall|c: ComponentId| #[trigger] new.partners(x, c) == Seq::<u32>::empty() by {
            assert(!new.entity_key(x).contains(c));
        }
        assert forall|i: int, c: ComponentId|
            new.entities.slot_alive(i) && new.valid_cid(c) && c.spec_is_relation() implies #[trigger] new.partners_alive(
            i,
            c,
        ) by {
            assert(old.valid_cid(c));
            if i != x {
                assert(old.partners_alive(i, c));
                assert(new.partners(i, c) == old.partners(i, c));
            } else {
                assert(new.partners(x, c) == Seq::<u32>::empty());
            }
        }
        assert forall|a: u32, b: u32, c: ComponentId|
            new.entities.slot_alive(a as int) && new.entities.slot_alive(b as int) && new.valid_cid(c)
                && c.spec_is_relation() && !c.spec_is_target() implies #[trigger] new.partners(
            a as int,
            c,
        ).to_multiset().count(b) == new.partners(b as int, c.spec_flip_target()).to_multiset().count(
            a,
        ) by {
            assert(old.valid_cid(c));
            old.lemma_flip_valid_any(c);
            let f = c.spec_flip_target();
            assert(new.partners(x, c) == Seq::<u32>::empty());
            assert(new.partners(x, f) == Seq::<u32>::empty());
            if a as int != x && b as int != x {
                assert(new.partners(a as int, c) == old.partners(a as int, c));
                assert(new.partners(b as int, f) == old.partners(b as int, f));
                assert(old.partners(a as int, c).to_multiset().count(b) == old.partners(b as int, f).to_multiset().count(a));
            } else if a as int == x && b as int == x {
            } else if a as int == x {
                old.lemma_dead_unlisted(b as int, f, a);
                assert(new.partners(b as int, f) == old.partners(b as int, f));
            } else {
                old.lemma_dead_unlisted(a as int, c, b);
                assert(new.partners(a as int, c) == old.partners(a as int, c));
            }
        }
    }

    /// Adding or removing a component that is no relation keeps the relations consistent.
    pub proof fn lemma_component_step_consistent(new: &Self, old: &Self, x: int, cid: ComponentId)
        requires
            old.wf(),
            new.wf(),
            old.relations_consistent(),
            !cid.spec_is_relation(),
            old.entities.slot_alive(x),
            new.same_except(old, x),
            forall|c: ComponentId|
                c != cid ==> (#[trigger] new.entity_key(x).contains(c) <==> old.entity_key(x).contains(c)),
            forall|c: ComponentId|
                #[trigger] old.entity_key(x).contains(c) && old.sized(c) && c != cid ==> new.entity_value(
                    x,
                    c,
                ) == old.entity_value(x, c),
        ensures
            new.relations_consistent(),
    {
        assert forall|i: int, c: ComponentId|
            old.entities.slot_alive(i) && old.valid_cid(c) && c.spec_is_relation() implies #[trigger] new.partners(i, c) == old.partners(i, c) by {
            if i != x {
                assert(new.same_entity(old, i));
                Self::lemma_same_entity_partners(new, old, i, c);
            } else {
                assert(new.sized(c) == old.sized(c));
                Self::lemma_partners_same(new, old, x, c);
            }
        }
        Self::lemma_frame_consistent(new, old);
    }
}

/// Pairing every element with the same side counts the pairs of that side.
proof fn lemma_pair_count(s: Seq<u32>, f: ComponentId, c: ComponentId, i: u32)
    ensures
        s.map_values(|y: u32| (f, y)).to_multiset().count((c, i)) == if f == c {
            s.to_multiset().count(i)
        } else {
            0
        },
    decreases s.len(),
{
    broadcast use vstd::seq_lib::group_to_multiset_ensures, vstd::multiset::group_multiset_axioms;

    if s.len() == 0 {
        assert(s.map_values(|y: u32| (f, y)) =~= Seq::<(ComponentId, u32)>::empty());
    } else {
        let t = s.drop_last();
        lemma_pair_count(t, f, c, i);
        assert(s =~= t.push(s.last()));
        assert(s.map_values(|y: u32| (f, y)) =~= t.map_values(|y: u32| (f, y)).push((f, s.last())));
    }
}

/// Dropping the first of the remaining elements takes one of it from the count.
pub proof fn lemma_rest_count<A>(s: Seq<A>, k: int)
    requires
        0 <= k < s.len(),
    ensures
        s.subrange(k, s.len() as int).to_multiset() == s.subrange(k + 1, s.len() as int).to_multiset().insert(s[k]),
{
    broadcast use vstd::seq_lib::group_to_multiset_ensures, vstd::multiset::group_multiset_axioms;

    let a = s.subrange(k, s.len() as int);
    let b = s.subrange(k + 1, s.len() as int);
    assert(a =~= seq![s[k]] + b);
    vstd::seq_lib::lemma_multiset_commutative(seq![s[k]], b);
    assert(seq![s[k]] =~= Seq::<A>::empty().push(s[k]));
    assert(a.to_multiset() =~= b.to_multiset().insert(s[k]));
}

impl<V> Bookkeeping<V> {
    /// The relation entries of a living slot hold each partner of the other side once per
    /// listing.
    pub proof fn lemma_entries_count(&self, e: int, n: int, c: ComponentId, i: u32)
        requires
            self.wf(),
            self.entities.slot_alive(e),
            0 <= n <= self.slot_columns(e).len(),
            self.valid_cid(c),
            c.spec_is_relation(),
        ensures
            self.entries_upto(e, n).to_multiset().count((c, i)) == if exists|j: int|
                0 <= j < n && self.slot_columns(e)[j] == c.spec_flip_target() {
                self.partners(e, c.spec_flip_target()).to_multiset().count(i)
            } else {
                0
            },
        decreases n,
    {
        broadcast use vstd::seq_lib::group_to_multiset_ensures, vstd::multiset::group_multiset_axioms;

        let cols = self.slot_columns(e);
        let f = c.spec_flip_target();
        c.lemma_flip_target();
        assert(self.archetypes@[self.slot_arch(e)].wf());
        if n == 0 {
            assert(self.entries_upto(e, 0) =~= Seq::<(ComponentId, u32)>::empty());
        } else {
            self.lemma_entries_count(e, n - 1, c, i);
            let col = cols[n - 1];
            let prev = self.entries_upto(e, n - 1);
            let seg = if col.spec_is_relation() {
                self.partners(e, col).map_values(|y: u32| (col.spec_flip_target(), y))
            } else {
                Seq::empty()
            };
            assert(self.entries_upto(e, n) == prev + seg);
            vstd::seq_lib::lemma_multiset_commutative(prev, seg);
            if col.spec_is_relation() {
                lemma_pair_count(self.partners(e, col), col.spec_flip_target(), c, i);
                col.lemma_flip_target();
                if col.spec_flip_target() == c {
                    assert(col == f);
                } else {
                    assert(col != f);
                }
            } else {
                assert(seg.to_multiset() =~= vstd::multiset::Multiset::<(ComponentId, u32)>::empty());
                assert(col != f);
            }
            if col == f {
                // the columns are distinct, so no earlier one is the other side
                assert forall|j: int| 0 <= j < n - 1 implies cols[j] != f by {
                    crate::archetype::lemma_sorted_index_of(cols, j);
                    crate::archetype::lemma_sorted_index_of(cols, n - 1);
                }
            }
            if exists|j: int| 0 <= j < n && cols[j] == f {
                let j = choose|j: int| 0 <= j < n && cols[j] == f;
                if j < n - 1 {
                    assert(exists|j: int| 0 <= j < n - 1 && cols[j] == f);
                }
            }
        }
    }

    /// All relation entries of a living slot hold each partner of the other side once per
    /// listing.
    pub proof fn lemma_all_entries_count(&self, e: int, c: ComponentId, i: u32)
        requires
            self.wf(),
            self.entities.slot_alive(e),
            self.valid_cid(c),
            c.spec_is_relation(),
        ensures
            self.entries(e).to_multiset().count((c, i)) == self.partners(
                e,
                c.spec_flip_target(),
            ).to_multiset().count(i),
    {
        broadcast use vstd::seq_lib::group_to_multiset_ensures;

        let cols = self.slot_columns(e);
        let f = c.spec_flip_target();
        self.lemma_entries_count(e, cols.len() as int, c, i);
        if !(exists|j: int| 0 <= j < cols.len() && cols[j] == f) {
            if self.entity_key(e).contains(f) && self.sized(f) {
                let a = self.slot_arch(e);
                assert(self.exact_archetype@[a]@.contains(f));
                assert(cols.contains(f));
            }
            assert(self.partners(e, f) =~= Seq::<u32>::empty());
        }
    }

    /// The mirror, read from either side.
    pub proof fn lemma_mirror_any_side(&self, x: u32, y: u32, c: ComponentId)
        requires
            self.wf(),
            self.relations_consistent(),
            self.entities.slot_alive(x as int),
            self.entities.slot_alive(y as int),
            self.valid_cid(c),
            c.spec_is_relation(),
        ensures
            self.partners(x as int, c).to_multiset().count(y) == self.partners(
                y as int,
                c.spec_flip_target(),
            ).to_multiset().count(x),
    {
        c.lemma_flip_target();
        if c.spec_is_target() {
            let o = c.spec_flip_target();
            self.lemma_flip_valid_any(c);
            if o.spec_is_target() {
                o.lemma_flip_target();
            }
            assert(!o.spec_is_target()) by {
                let k = c.spec_id() as int;
                let id = self.components@[k].id;
                id.lemma_flip_target();
            }
            assert(self.partners(y as int, o).to_multiset().count(x) == self.partners(x as int, o.spec_flip_target()).to_multiset().count(y));
        }
    }
}

} // verus!
