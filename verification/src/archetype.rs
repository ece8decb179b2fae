use vstd::prelude::*;

use crate::component::ComponentId;
use crate::entity_store::EntityId;
use crate::layout_vec::{LayoutVec, swap_removed};
use crate::relation_vec::RelationVec;

verus! {

/// Index of an archetype in the bookkeeping's archetype table.
#[derive(Clone, Copy, Debug, PartialEq, Eq, Structural)]
pub struct ArchetypeId(pub u32);

/// Row of an entity inside an archetype.
#[derive(Clone, Copy, Debug, PartialEq, Eq, Structural)]
pub struct ArchetypeRow(pub u32);

/// Column of a component inside an archetype.
#[derive(Clone, Copy, Debug, PartialEq, Eq, Structural)]
pub struct ArchetypeColumn(pub u32);

impl ArchetypeId {
    pub fn as_index(&self) -> (r: usize)
        ensures
            r == self.0,
    {
        self.0 as usize
    }
}

impl ArchetypeRow {
    pub fn as_index(&self) -> (r: usize)
        ensures
            r == self.0,
    {
        self.0 as usize
    }
}

/// What a column holds for one entity: a value of a normal component,
/// or the partners of a relation.
pub enum ComponentValue<V> {
    Data(V),
    Relation(RelationVec),
}

/// The value fits the component: relations hold well formed relation vectors,
/// normal components hold data.
pub open spec fn entry_fits<V>(cid: ComponentId, entry: ComponentValue<V>) -> bool {
    match entry {
        ComponentValue::Data(_) => !cid.spec_is_relation(),
        ComponentValue::Relation(rv) => cid.spec_is_relation() && rv.wf(),
    }
}

/// Component ids in strictly ascending order of their bits.
pub open spec fn sorted_ids(s: Seq<ComponentId>) -> bool {
    forall|i: int, j: int| 0 <= i < j < s.len() ==> (#[trigger] s[i]).bits() < (#[trigger] s[j]).bits()
}

/// `a` and `b` are equal, or one is the other with a single element taken out.
pub open spec fn differ_by_at_most_one(a: Seq<ComponentId>, b: Seq<ComponentId>) -> bool {
    ||| a == b
    ||| exists|p: int| 0 <= p < b.len() && a == b.remove(p)
    ||| exists|p: int| 0 <= p < a.len() && b == a.remove(p)
}

/// A table of all entities that have exactly the same set of components.
/// `components` lists the components that have a size, each with a column;
/// row `r` of every column belongs to `entities[r]`.
pub struct Archetype<V> {
    pub components: Vec<ComponentId>,
    pub columns: Vec<LayoutVec<ComponentValue<V>>>,
    pub entities: Vec<EntityId>,
}

impl<V> Archetype<V> {
    pub open spec fn wf(&self) -> bool {
        &&& self.columns@.len() == self.components@.len()
        &&& sorted_ids(self.components@)
        &&& forall|c: int|
            0 <= c < self.columns@.len() ==> (#[trigger] self.columns@[c])@.len()
                == self.entities@.len()
        &&& forall|c: int, r: int|
            0 <= c < self.columns@.len() && 0 <= r < self.entities@.len() ==> entry_fits(
                self.components@[c],
                #[trigger] self.columns@[c]@[r],
            )
    }

    /// Creates an archetype without entities.
    pub fn new(components: Vec<ComponentId>, columns: Vec<LayoutVec<ComponentValue<V>>>) -> (r:
        Self)
        requires
            sorted_ids(components@),
            components@.len() == columns@.len(),
            forall|c: int| 0 <= c < columns@.len() ==> (#[trigger] columns@[c])@.len() == 0,
        ensures
            r.wf(),
            r.components@ == components@,
            r.columns@ == columns@,
            r.entities@.len() == 0,
    {
        Archetype { components, columns, entities: Vec::new() }
    }

    /// Removes the row, dropping its values; the last row moves into the hole.
    /// Returns true if an entity was moved to fill the hole.
    #[must_use]
    pub fn delete_row(&mut self, row: ArchetypeRow) -> (r: bool)
        requires
            old(self).wf(),
            row.0 < old(self).entities@.len(),
        ensures
            final(self).wf(),
            final(self).components@ == old(self).components@,
            final(self).entities@ == swap_removed(old(self).entities@, row.0 as int),
            final(self).columns@.len() == old(self).columns@.len(),
            forall|c: int|
                0 <= c < old(self).columns@.len() ==> (#[trigger] final(self).columns@[c])@
                    == swap_removed(old(self).columns@[c]@, row.0 as int),
            r == (row.0 as int != old(self).entities@.len() - 1),
    {
        self.entities.swap_remove(row.0 as usize);
        let mut i: usize = 0;
        while i < self.columns.len()
            invariant
                0 <= i <= self.columns@.len(),
                self.columns@.len() == old(self).columns@.len(),
                self.components == old(self).components,
                self.entities@ == swap_removed(old(self).entities@, row.0 as int),
                old(self).wf(),
                row.0 < old(self).entities@.len(),
                forall|c: int|
                    0 <= c < i ==> (#[trigger] self.columns@[c])@ == swap_removed(
                        old(self).columns@[c]@,
                        row.0 as int,
                    ),
                forall|c: int| i <= c < self.columns@.len() ==> #[trigger] self.columns@[c] == old(self).columns@[c],
            decreases self.columns@.len() - i,
        {
            let _ = self.columns[i].remove_swap(row.0);
            i += 1;
        }
        proof {
            assert forall|c: int, r: int|
                0 <= c < self.columns@.len() && 0 <= r < self.entities@.len() implies entry_fits(
                self.components@[c],
                #[trigger] self.columns@[c]@[r],
            ) by {
                let oc = old(self).columns@[c]@;
                assert(self.columns@[c]@ == swap_removed(oc, row.0 as int));
                if r == row.0 {
                    assert(entry_fits(self.components@[c], oc[oc.len() - 1]));
                } else {
                    assert(entry_fits(self.components@[c], oc[r]));
                }
            }
        }
        (row.0 as usize) != self.entities.len()
    }

    /// Column index of the component, if the archetype has a column for it.
    pub fn find_column_index(&self, cid: ComponentId) -> (r: Option<usize>)
        ensures
            match r {
                Some(i) => i < self.components@.len() && self.components@[i as int] == cid
                    && forall|j: int| 0 <= j < i ==> self.components@[j] != cid,
                None => !self.components@.contains(cid),
            },
    {
        let mut i: usize = 0;
        while i < self.components.len()
            invariant
                0 <= i <= self.components@.len(),
                forall|j: int| 0 <= j < i ==> self.components@[j] != cid,
            decreases self.components@.len() - i,
        {
            if self.components[i] == cid {
                return Some(i);
            }
            i += 1;
        }
        None
    }

    /// Returns the column this component is in; the archetype has one for it.
    pub fn find_column(&self, cid: ComponentId) -> (r: &LayoutVec<ComponentValue<V>>)
        requires
            self.wf(),
            self.components@.contains(cid),
        ensures
            *r == self.columns@[self.components@.index_of(cid)],
    {
        let index = self.find_column_index(cid).unwrap();
        proof {
            self.lemma_index_of(cid, index as int);
        }
        &self.columns[index]
    }

    /// Returns the column this component is in, for mutation; the archetype has one for it.
    pub fn find_column_mut(&mut self, cid: ComponentId) -> (r: &mut LayoutVec<ComponentValue<V>>)
        requires
            old(self).wf(),
            old(self).components@.contains(cid),
        ensures
            *r == old(self).columns@[old(self).components@.index_of(cid)],
            final(self).columns@ == old(self).columns@.update(
                old(self).components@.index_of(cid),
                *final(r),
            ),
            final(self).components == old(self).components,
            final(self).entities == old(self).entities,
    {
        let index = self.find_column_index(cid).unwrap();
        proof {
            self.lemma_index_of(cid, index as int);
        }
        &mut self.columns[index]
    }

    /// Puts `value` into the column of `cid` at `row`; hands back the value that was there.
    pub fn replace_entry(&mut self, cid: ComponentId, row: ArchetypeRow, value: ComponentValue<V>) -> (r:
        ComponentValue<V>)
        requires
            old(self).wf(),
            old(self).components@.contains(cid),
            row.0 < old(self).entities@.len(),
            entry_fits(cid, value),
        ensures
            final(self).wf(),
            final(self).components == old(self).components,
            final(self).entities == old(self).entities,
            final(self).columns@.len() == old(self).columns@.len(),
            r == old(self).columns@[old(self).components@.index_of(cid)]@[row.0 as int],
            final(self).columns@[old(self).components@.index_of(cid)]@ == old(self).columns@[old(
                self,
            ).components@.index_of(cid)]@.update(row.0 as int, value),
            forall|j: int|
                0 <= j < old(self).columns@.len() && j != old(self).components@.index_of(cid)
                    ==> #[trigger] final(self).columns@[j] == old(self).columns@[j],
    {
        let k = self.find_column_index(cid).unwrap();
        proof {
            self.lemma_index_of(cid, k as int);
        }
        let r = self.columns[k].replace(row.0, value);
        proof {
            let o = old(self);
            assert forall|c: int| 0 <= c < self.columns@.len() implies (#[trigger] self.columns@[c])@.len()
                == self.entities@.len() by {
                assert(o.columns@[c]@.len() == o.entities@.len());
            }
            assert forall|c: int, q: int|
                0 <= c < self.columns@.len() && 0 <= q < self.entities@.len() implies entry_fits(
                self.components@[c],
                #[trigger] self.columns@[c]@[q],
            ) by {
                assert(o.columns@[c]@.len() == o.entities@.len());
                if c != k || q != row.0 {
                    assert(entry_fits(o.components@[c], o.columns@[c]@[q]));
                }
            }
        }
        r
    }

    /// Returns the column this component is in, `None` if there is none.
    pub fn find_column_opt(&self, cid: ComponentId) -> (r: Option<&LayoutVec<ComponentValue<V>>>)
        requires
            self.wf(),
        ensures
            match r {
                Some(col) => self.components@.contains(cid) && *col == self.columns@[
                    self.components@.index_of(cid)],
                None => !self.components@.contains(cid),
            },
    {
        match self.find_column_index(cid) {
            Some(index) => {
                proof {
                    self.lemma_index_of(cid, index as int);
                }
                Some(&self.columns[index])
            },
            None => None,
        }
    }

    /// Component ids are distinct, so `index_of` finds the one position of `cid`.
    pub proof fn lemma_index_of(&self, cid: ComponentId, i: int)
        requires
            sorted_ids(self.components@),
            0 <= i < self.components@.len(),
            self.components@[i] == cid,
        ensures
            self.components@.index_of(cid) == i,
    {
        lemma_sorted_index_of(self.components@, i);
    }

    // We use an out parameter so that the results can live in an array on the stack.
    fn find_multiple_columns_internal(
        &self,
        cids: &[ComponentId],
        result_indexes: &mut [usize],
    ) -> (r: usize)
        requires
            self.wf(),
            cids@.len() == old(result_indexes)@.len(),
            sorted_ids(cids@),
        ensures
            r <= cids@.len(),
            final(result_indexes)@.len() == old(result_indexes)@.len(),
            forall|k: int|
                0 <= k < r ==> #[trigger] final(result_indexes)@[k] < self.components@.len()
                    && self.components@[final(result_indexes)@[k] as int] == cids@[k],
            forall|k: int|
                r <= k < cids@.len() ==> #[trigger] final(result_indexes)@[k] == old(
                    result_indexes,
                )@[k],
            (r == cids@.len()) == (forall|k: int|
                0 <= k < cids@.len() ==> self.components@.contains(#[trigger] cids@[k])),
    {
        if cids.len() == 0 {
            return 0;
        }
        let mut j: usize = 0;
        let mut i: usize = 0;
        while i < self.components.len()
            invariant
                self.wf(),
                sorted_ids(cids@),
                cids@.len() == old(result_indexes)@.len(),
                result_indexes@.len() == old(result_indexes)@.len(),
                0 <= i <= self.components@.len(),
                0 <= j < cids@.len(),
                forall|k: int|
                    0 <= k < j ==> #[trigger] result_indexes@[k] < i && self.components@[
                        result_indexes@[k] as int] == cids@[k],
                forall|k: int|
                    j <= k < cids@.len() ==> #[trigger] result_indexes@[k] == old(
                        result_indexes,
                    )@[k],
                // nothing passed so far is `cids[j]` or beyond, unless `cids[j]` is missing
                !self.components@.contains(cids@[j as int]) || forall|l: int|
                    0 <= l < i ==> (#[trigger] self.components@[l]).bits() < cids@[j as int].bits(),
            decreases self.components@.len() - i,
        {
            if self.components[i] == cids[j] {
                result_indexes[j] = i;
                j += 1;
                if j >= cids.len() {
                    proof {
                        assert forall|k: int| 0 <= k < cids@.len() implies self.components@.contains(
                            #[trigger] cids@[k],
                        ) by {
                            assert(self.components@[result_indexes@[k] as int] == cids@[k]);
                        }
                    }
                    return j;
                }
                proof {
                    assert(self.components@.contains(cids@[j - 1]));
                    assert forall|l: int| 0 <= l < i + 1 implies (
                    #[trigger] self.components@[l]).bits() < cids@[j as int].bits() by {
                        assert(cids@[j - 1].bits() < cids@[j as int].bits());
                    }
                }
            } else {
                proof {
                    if self.components@.contains(cids@[j as int]) && self.components@[
                        i as int].bits() > cids@[j as int].bits() {
                        lemma_not_contained(self.components@, cids@[j as int], i as int);
                    }
                    if self.components@[i as int].bits() == cids@[j as int].bits() {
                        self.components@[i as int].lemma_bits();
                        cids@[j as int].lemma_bits();
                    }
                }
            }
            i += 1;
        }
        proof {
            if self.components@.contains(cids@[j as int]) {
                let l = choose|l: int|
                    0 <= l < self.components@.len() && self.components@[l] == cids@[j as int];
                assert(self.components@[l].bits() < cids@[j as int].bits());
            }
        }
        j
    }
}

impl<V> Archetype<V> {
    /// Finds the columns of all `cids` (sorted) and writes their indexes to `result_indexes`.
    /// Each of them has a column here.
    pub fn find_multiple_columns(&self, cids: &[ComponentId], result_indexes: &mut [usize])
        requires
            self.wf(),
            cids@.len() == old(result_indexes)@.len(),
            sorted_ids(cids@),
            forall|k: int| 0 <= k < cids@.len() ==> self.components@.contains(#[trigger] cids@[k]),
        ensures
            final(result_indexes)@.len() == cids@.len(),
            forall|k: int|
                0 <= k < cids@.len() ==> #[trigger] final(result_indexes)@[k]
                    < self.components@.len() && self.components@[final(result_indexes)@[k] as int]
                    == cids@[k],
    {
        let _j = self.find_multiple_columns_internal(cids, result_indexes);
    }

    /// Like `find_multiple_columns`; returns false if some component has no column here.
    pub fn find_multiple_columns_fallible(
        &self,
        cids: &[ComponentId],
        result_indexes: &mut [usize],
    ) -> (r: bool)
        requires
            self.wf(),
            cids@.len() == old(result_indexes)@.len(),
            sorted_ids(cids@),
        ensures
            final(result_indexes)@.len() == cids@.len(),
            r == (forall|k: int|
                0 <= k < cids@.len() ==> self.components@.contains(#[trigger] cids@[k])),
            r ==> forall|k: int|
                0 <= k < cids@.len() ==> #[trigger] final(result_indexes)@[k]
                    < self.components@.len() && self.components@[final(result_indexes)@[k] as int]
                    == cids@[k],
    {
        let j = self.find_multiple_columns_internal(cids, result_indexes);
        cids.len() == j
    }
}

/// Position in the new component list of old column `k` (see `move_row`).
pub open spec fn mapped_column(mode: int, p: int, k: int) -> int {
    if mode == 1 && k >= p {
        k + 1
    } else if mode == 2 && k > p {
        k - 1
    } else {
        k
    }
}

/// Position in the old component list of new column `l` (see `move_row`).
pub open spec fn source_column(mode: int, p: int, l: int) -> int {
    if mode == 1 && l > p {
        l - 1
    } else if mode == 2 && l >= p {
        l + 1
    } else {
        l
    }
}

impl<V> Archetype<V> {
    /// Moves row `row` of `old` to the end of `new`, column by column.
    /// The component lists differ by at most one component: a column that only `old` has keeps
    /// its entry, a column that only `new` has gets none; the caller fixes both, and the
    /// entity entries of the moved entity and of the entity moved into the hole.
    pub fn move_row(from: &mut Self, to: &mut Self, row: ArchetypeRow)
        requires
            old(from).wf(),
            old(to).wf(),
            row.0 < old(from).entities@.len(),
            differ_by_at_most_one(old(from).components@, old(to).components@),
        ensures
            final(from).components@ == old(from).components@,
            final(to).components@ == old(to).components@,
            final(from).columns@.len() == old(from).columns@.len(),
            final(to).columns@.len() == old(to).columns@.len(),
            final(from).entities@ == swap_removed(old(from).entities@, row.0 as int),
            final(to).entities@ == old(to).entities@.push(old(from).entities@[row.0 as int]),
            forall|k: int|
                0 <= k < old(from).columns@.len() && old(to).components@.contains(
                    old(from).components@[k],
                ) ==> {
                    &&& (#[trigger] final(from).columns@[k])@ == swap_removed(
                        old(from).columns@[k]@,
                        row.0 as int,
                    )
                    &&& final(to).columns@[old(to).components@.index_of(
                        old(from).components@[k],
                    )]@ == old(to).columns@[old(to).components@.index_of(
                        old(from).components@[k],
                    )]@.push(old(from).columns@[k]@[row.0 as int])
                },
            forall|k: int|
                0 <= k < old(from).columns@.len() && !old(to).components@.contains(
                    old(from).components@[k],
                ) ==> (#[trigger] final(from).columns@[k])@ == old(from).columns@[k]@,
            forall|l: int|
                0 <= l < old(to).columns@.len() && !old(from).components@.contains(
                    old(to).components@[l],
                ) ==> (#[trigger] final(to).columns@[l])@ == old(to).columns@[l]@,
    {
        let ghost oc = from.components@;
        let ghost nc = to.components@;
        let ghost ocols = from.columns@;
        let ghost ncols = to.columns@;
        let ghost r = row.0 as int;
        let ghost (mode, p) = if oc == nc {
            (0int, oc.len() as int)
        } else if exists|p: int| 0 <= p < nc.len() && oc == nc.remove(p) {
            (1int, choose|p: int| 0 <= p < nc.len() && oc == nc.remove(p))
        } else {
            (2int, choose|p: int| 0 <= p < oc.len() && nc == oc.remove(p))
        };
        let new_bigger = to.components.len() > from.components.len();
        let mut i: usize = 0;
        let mut j: usize = 0;
        while i < from.components.len() && j < to.components.len()
            invariant
                from.components@ == oc,
                to.components@ == nc,
                oc == old(from).components@,
                nc == old(to).components@,
                from.entities == old(from).entities,
                to.entities == old(to).entities,
                from.columns@.len() == ocols.len(),
                to.columns@.len() == ncols.len(),
                ocols == old(from).columns@,
                ncols == old(to).columns@,
                old(from).wf(),
                old(to).wf(),
                r == row.0,
                0 <= r < from.entities@.len(),
                new_bigger == (nc.len() > oc.len()),
                0 <= i <= oc.len(),
                0 <= j <= nc.len(),
                mode == 0 ==> oc == nc && i == j,
                mode == 1 ==> 0 <= p < nc.len() && oc == nc.remove(p) && ((i == j && i <= p) || (j
                    == i + 1 && i >= p)),
                mode == 2 ==> 0 <= p < oc.len() && nc == oc.remove(p) && ((i == j && j <= p) || (i
                    == j + 1 && j >= p)),
                mode == 0 || mode == 1 || mode == 2,
                forall|k: int|
                    0 <= k < ocols.len() ==> (#[trigger] from.columns@[k])@ == if k < i && !(mode
                        == 2 && k == p) {
                        swap_removed(ocols[k]@, r)
                    } else {
                        ocols[k]@
                    },
                forall|l: int|
                    0 <= l < ncols.len() ==> (#[trigger] to.columns@[l])@ == if l < j && !(mode
                        == 1 && l == p) {
                        ncols[l]@.push(ocols[source_column(mode, p, l)]@[r])
                    } else {
                        ncols[l]@
                    },
            decreases oc.len() - i,
        {
            proof {
                if mode == 1 {
                    if i == j && i < p {
                        assert(oc[i as int] == nc[i as int]);
                    } else if i == j {
                        assert(oc[i as int] == nc[i + 1]);
                        assert(nc[i as int].bits() < nc[i + 1].bits());
                    } else {
                        assert(oc[i as int] == nc[i + 1]);
                    }
                } else if mode == 2 {
                    if i == j && j < p {
                        assert(nc[j as int] == oc[j as int]);
                    } else if i == j {
                        assert(nc[j as int] == oc[j + 1]);
                        assert(oc[j as int].bits() < oc[j + 1].bits());
                    } else {
                        assert(nc[j as int] == oc[j + 1]);
                    }
                }
            }
            if from.components[i] != to.components[j] {
                if new_bigger {
                    j += 1;
                } else {
                    i += 1;
                }
            }
            proof {
                if mode == 1 {
                    assert(oc[i as int] == nc[i + 1] || oc[i as int] == nc[i as int]);
                }
                assert(oc[i as int] == nc[j as int]);
                assert(j as int == mapped_column(mode, p, i as int));
                assert(i as int == source_column(mode, p, j as int));
                assert(ocols[i as int]@.len() == old(from).entities@.len());
            }
            LayoutVec::move_entry(&mut from.columns[i], &mut to.columns[j], row.0);
            i += 1;
            j += 1;
        }
        let e_id = from.entities.swap_remove(row.0 as usize);
        to.entities.push(e_id);
        proof {
            assert forall|k: int|
                0 <= k < ocols.len() && nc.contains(oc[k]) implies {
                &&& (#[trigger] from.columns@[k])@ == swap_removed(ocols[k]@, r)
                &&& to.columns@[nc.index_of(oc[k])]@ == ncols[nc.index_of(oc[k])]@.push(
                    ocols[k]@[r],
                )
            } by {
                let m = mapped_column(mode, p, k);
                lemma_mapping(oc, nc, mode, p, k);
                lemma_sorted_index_of(nc, m);
                if mode == 2 {
                    assert(k != p);
                }
                assert(k < i);
                assert(m < j);
            }
            assert forall|k: int|
                0 <= k < ocols.len() && !nc.contains(oc[k]) implies (#[trigger] from.columns@[k])@
                == ocols[k]@ by {
                lemma_mapping(oc, nc, mode, p, k);
                assert(from.columns@[k]@ == ocols[k]@);
            }
            assert forall|l: int|
                0 <= l < ncols.len() && !oc.contains(nc[l]) implies (#[trigger] to.columns@[l])@
                == ncols[l]@ by {
                lemma_unmapped_new(oc, nc, mode, p, l);
                assert(to.columns@[l]@ == ncols[l]@);
            }
        }
    }
}

/// Column `k` of `oc` is found in `nc` at `mapped_column`, unless it is the one left out.
proof fn lemma_mapping(oc: Seq<ComponentId>, nc: Seq<ComponentId>, mode: int, p: int, k: int)
    requires
        sorted_ids(oc),
        sorted_ids(nc),
        0 <= k < oc.len(),
        mode == 0 ==> oc == nc,
        mode == 1 ==> 0 <= p < nc.len() && oc == nc.remove(p),
        mode == 2 ==> 0 <= p < oc.len() && nc == oc.remove(p),
        mode == 0 || mode == 1 || mode == 2,
    ensures
        (mode == 2 && k == p) ==> !nc.contains(oc[k]),
        !(mode == 2 && k == p) ==> {
            let m = mapped_column(mode, p, k);
            &&& 0 <= m < nc.len()
            &&& nc[m] == oc[k]
            &&& nc.contains(oc[k])
        },
{
    if mode == 2 && k == p {
        if nc.contains(oc[k]) {
            let l = choose|l: int| 0 <= l < nc.len() && nc[l] == oc[k];
            if l < p {
                assert(nc[l] == oc[l]);
                assert(oc[l].bits() < oc[k].bits());
            } else {
                assert(nc[l] == oc[l + 1]);
                assert(oc[k].bits() < oc[l + 1].bits());
            }
        }
    } else {
        let m = mapped_column(mode, p, k);
        assert(nc[m] == oc[k]);
    }
}

/// A column only the new list has is not in the old list.
proof fn lemma_unmapped_new(oc: Seq<ComponentId>, nc: Seq<ComponentId>, mode: int, p: int, l: int)
    requires
        sorted_ids(oc),
        sorted_ids(nc),
        0 <= l < nc.len(),
        !oc.contains(nc[l]),
        mode == 0 ==> oc == nc,
        mode == 1 ==> 0 <= p < nc.len() && oc == nc.remove(p),
        mode == 2 ==> 0 <= p < oc.len() && nc == oc.remove(p),
        mode == 0 || mode == 1 || mode == 2,
    ensures
        mode == 1 && l == p,
{
    if mode == 0 {
        assert(oc[l] == nc[l]);
    } else if mode == 2 {
        if l < p {
            assert(nc[l] == oc[l]);
        } else {
            assert(nc[l] == oc[l + 1]);
        }
    } else if l < p {
        assert(oc[l] == nc[l]);
    } else if l > p {
        assert(oc[l - 1] == nc[l]);
    }
}

/// Two strictly sorted id lists with the same elements are equal.
pub proof fn lemma_sorted_eq(a: Seq<ComponentId>, b: Seq<ComponentId>)
    requires
        sorted_ids(a),
        sorted_ids(b),
        forall|c: ComponentId| a.contains(c) <==> b.contains(c),
    ensures
        a == b,
    decreases a.len(),
{
    if a.len() == 0 {
        if b.len() > 0 {
            assert(b.contains(b[0]));
        }
        assert(a =~= b);
    } else {
        assert(a.contains(a[0]));
        assert(b.len() > 0);
        assert(b.contains(b[0]));
        let j = choose|j: int| 0 <= j < b.len() && b[j] == a[0];
        let k = choose|k: int| 0 <= k < a.len() && a[k] == b[0];
        if j > 0 {
            assert(b[0].bits() < b[j].bits());
            if k > 0 {
                assert(a[0].bits() < a[k].bits());
            }
        }
        assert(a[0] == b[0]);
        let a1 = a.drop_first();
        let b1 = b.drop_first();
        assert forall|c: ComponentId| a1.contains(c) <==> b1.contains(c) by {
            if a1.contains(c) {
                let i = choose|i: int| 0 <= i < a1.len() && a1[i] == c;
                assert(a[i + 1] == c);
                assert(a[0].bits() < a[i + 1].bits());
                assert(b.contains(c));
                let l = choose|l: int| 0 <= l < b.len() && b[l] == c;
                assert(l != 0);
                assert(b1[l - 1] == c);
            }
            if b1.contains(c) {
                let i = choose|i: int| 0 <= i < b1.len() && b1[i] == c;
                assert(b[i + 1] == c);
                assert(b[0].bits() < b[i + 1].bits());
                assert(a.contains(c));
                let l = choose|l: int| 0 <= l < a.len() && a[l] == c;
                assert(l != 0);
                assert(a1[l - 1] == c);
            }
        }
        assert(sorted_ids(a1)) by {
            assert forall|i: int, j: int| 0 <= i < j < a1.len() implies (#[trigger] a1[i]).bits() < (
            #[trigger] a1[j]).bits() by {
                assert(a1[i] == a[i + 1] && a1[j] == a[j + 1]);
            }
        }
        assert(sorted_ids(b1)) by {
            assert forall|i: int, j: int| 0 <= i < j < b1.len() implies (#[trigger] b1[i]).bits() < (
            #[trigger] b1[j]).bits() by {
                assert(b1[i] == b[i + 1] && b1[j] == b[j + 1]);
            }
        }
        lemma_sorted_eq(a1, b1);
        assert(a =~= b) by {
            assert forall|i: int| 0 <= i < a.len() implies a[i] == b[i] by {
                if i > 0 {
                    assert(a[i] == a1[i - 1]);
                    assert(b[i] == b1[i - 1]);
                }
            }
        }
    }
}

/// If a strictly sorted list has the elements of another one plus `x`, the other one is it
/// with `x` taken out.
pub proof fn lemma_sorted_remove(big: Seq<ComponentId>, small: Seq<ComponentId>, x: ComponentId)
    requires
        sorted_ids(big),
        sorted_ids(small),
        !small.contains(x),
        forall|c: ComponentId| big.contains(c) <==> (small.contains(c) || c == x),
    ensures
        big.contains(x),
        small == big.remove(big.index_of(x)),
        differ_by_at_most_one(small, big),
{
    assert(big.contains(x));
    let p = big.index_of(x);
    let r = big.remove(p);
    assert(sorted_ids(r)) by {
        assert forall|i: int, j: int| 0 <= i < j < r.len() implies (#[trigger] r[i]).bits() < (
        #[trigger] r[j]).bits() by {
            let i2 = if i < p {
                i
            } else {
                i + 1
            };
            let j2 = if j < p {
                j
            } else {
                j + 1
            };
            assert(r[i] == big[i2] && r[j] == big[j2]);
        }
    }
    assert forall|c: ComponentId| r.contains(c) <==> small.contains(c) by {
        if r.contains(c) {
            let i = choose|i: int| 0 <= i < r.len() && r[i] == c;
            let i2 = if i < p {
                i
            } else {
                i + 1
            };
            assert(big[i2] == c);
            assert(big.contains(c));
            if c == x {
                lemma_sorted_index_of(big, i2);
            }
        }
        if small.contains(c) {
            assert(big.contains(c));
            let i = choose|i: int| 0 <= i < big.len() && big[i] == c;
            assert(i != p);
            if i < p {
                assert(r[i] == c);
            } else {
                assert(r[i - 1] == c);
            }
        }
    }
    lemma_sorted_eq(r, small);
}

/// In a strictly sorted sequence, `index_of` finds the one position of an element.
pub proof fn lemma_sorted_index_of(s: Seq<ComponentId>, i: int)
    requires
        sorted_ids(s),
        0 <= i < s.len(),
    ensures
        s.index_of(s[i]) == i,
        s.contains(s[i]),
{
    assert(s.contains(s[i]));
    let k = s.index_of(s[i]);
    assert(s[k] == s[i]);
    if k < i {
        assert(s[k].bits() < s[i].bits());
    } else if k > i {
        assert(s[i].bits() < s[k].bits());
    }
}

/// If everything before position `i` is smaller than `x` and `s[i]` is bigger, `x` is not in `s`.
pub proof fn lemma_not_contained(s: Seq<ComponentId>, x: ComponentId, i: int)
    requires
        sorted_ids(s),
        0 <= i < s.len(),
        forall|l: int| 0 <= l < i ==> (#[trigger] s[l]).bits() < x.bits(),
        s[i].bits() > x.bits(),
    ensures
        !s.contains(x),
{
    if s.contains(x) {
        let k = choose|k: int| 0 <= k < s.len() && s[k] == x;
        if k > i {
            assert(s[i].bits() < s[k].bits());
        }
    }
}

} // verus!
