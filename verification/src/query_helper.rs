//! Helpers for the code that runs queries: walking the partners of an entity in a relation
//! column, and the counters that step through archetypes and their rows.
use vstd::prelude::*;

use crate::archetype::{Archetype, ArchetypeId, ArchetypeRow, ComponentValue};
use crate::bookkeeping::Bookkeeping;
use crate::component::ComponentId;
use crate::entity_store::EntityId;
use crate::layout_vec::LayoutVec;
use std::collections::HashSet;

verus! {

/// Helps with relation traversal: the partners, in the relation side `cid`, of the entity at
/// `row` of a relation column. For a transitive relation they are computed eagerly, following
/// the relation.
pub struct RelationHelper<'a, V> {
    cid: ComponentId,
    column: Option<&'a LayoutVec<ComponentValue<V>>>,
    row: u32,
    rel_index: u32,
    // only used for transitive relations
    transitive_vec: Vec<u32>,
    transitive_set: HashSet<u32>,
}

impl<'a, V> RelationHelper<'a, V> {
    pub closed spec fn cid_spec(&self) -> ComponentId {
        self.cid
    }

    pub closed spec fn column_spec(&self) -> Option<&'a LayoutVec<ComponentValue<V>>> {
        self.column
    }

    pub closed spec fn row_spec(&self) -> u32 {
        self.row
    }

    pub closed spec fn index_spec(&self) -> u32 {
        self.rel_index
    }

    /// The partner ids in the column at the current row.
    pub closed spec fn current_vec(&self) -> Seq<u32> {
        match self.column {
            Some(col) => match col@[self.row as int] {
                ComponentValue::Relation(rv) => rv@,
                ComponentValue::Data(_) => Seq::empty(),
            },
            None => Seq::empty(),
        }
    }

    /// The ids that `next_related` walks through: the eagerly computed list for a transitive
    /// relation, the partners at the current row otherwise.
    pub closed spec fn related_seq(&self) -> Seq<u32> {
        if self.cid.spec_is_transitive() {
            self.transitive_vec@
        } else {
            self.current_vec()
        }
    }

    /// The ids that `has_relation` accepts.
    pub closed spec fn related_set(&self) -> Set<u32> {
        if self.cid.spec_is_transitive() {
            self.transitive_set@
        } else {
            self.current_vec().to_set()
        }
    }

    /// The column is set and holds a well formed relation vector at the current row.
    pub closed spec fn row_ready(&self) -> bool {
        match self.column {
            Some(col) => self.row < col@.len() && match col@[self.row as int] {
                ComponentValue::Relation(rv) => rv.wf(),
                ComponentValue::Data(_) => false,
            },
            None => false,
        }
    }

    /// A column at `row` holds a well formed relation vector.
    pub open spec fn relation_at(column: &LayoutVec<ComponentValue<V>>, row: u32) -> bool {
        row < column@.len() && match column@[row as int] {
            ComponentValue::Relation(rv) => rv.wf(),
            ComponentValue::Data(_) => false,
        }
    }

    /// The relation vector of a column at `row`.
    pub open spec fn vec_at(column: &LayoutVec<ComponentValue<V>>, row: u32) -> Seq<u32> {
        match column@[row as int] {
            ComponentValue::Relation(rv) => rv@,
            ComponentValue::Data(_) => Seq::empty(),
        }
    }

    pub fn new(cid: ComponentId) -> (r: Self)
        ensures
            r.cid_spec() == cid,
            r.column_spec() is None,
    {
        RelationHelper {
            cid,
            // all of the following are overwritten before use
            column: None,
            row: 0,
            rel_index: 0,
            transitive_vec: Vec::new(),
            transitive_set: HashSet::new(),
        }
    }

    pub fn set_col(&mut self, column: &'a LayoutVec<ComponentValue<V>>)
        ensures
            final(self).column_spec() == Some(column),
            final(self).cid_spec() == old(self).cid_spec(),
    {
        self.column = Some(column);
    }

    /// Moves to `row` of the column and starts the walk anew. For a transitive relation the
    /// partners at the row are followed through `bk`: the walk gives those partners, then
    /// every further id reached from them, each once.
    pub fn set_row(&mut self, bk: &Bookkeeping<V>, row_counter: u32)
        requires
            bk.wf(),
            bk.valid_cid(old(self).cid_spec()),
            old(self).cid_spec().spec_is_relation(),
            old(self).column_spec() matches Some(col) && Self::relation_at(col, row_counter),
        ensures
            final(self).cid_spec() == old(self).cid_spec(),
            final(self).column_spec() == old(self).column_spec(),
            final(self).row_spec() == row_counter,
            final(self).index_spec() == u32::MAX,
            final(self).row_ready(),
            final(self).current_vec() == Self::vec_at(old(self).column_spec().unwrap(), row_counter),
            final(self).cid_spec().spec_is_transitive() ==> {
                let start = final(self).current_vec();
                &&& final(self).related_seq().subrange(0, start.len() as int) == start
                &&& forall|y: u32| #[trigger] final(self).related_set().contains(y) <==> bk.in_closure(final(self).cid_spec(), start, y)
                &&& forall|y: u32| #[trigger] final(self).related_seq().contains(y) <==> final(self).related_set().contains(y)
            },
            !final(self).cid_spec().spec_is_transitive() ==> final(self).related_seq() == final(self).current_vec()
                && final(self).related_set() == final(self).current_vec().to_set(),
    {
        self.row = row_counter;
        self.rel_index = u32::MAX; // rolls over to 0
        // compute related eagerly
        if self.cid.is_transitive() {
            let col = self.column.unwrap();
            match col.get(row_counter) {
                ComponentValue::Relation(rv) => {
                    let (v, s) = bk.related_closure(self.cid, rv);
                    self.transitive_vec = v;
                    self.transitive_set = s;
                    proof {
                        assert forall|y: u32| #[trigger] self.related_set().contains(y) <==> bk.in_closure(self.cid, rv@, y) by {}
                    }
                },
                ComponentValue::Data(_) => {
                    proof {
                        assert(false);
                    }
                },
            }
        }
    }

    /// The next id of the walk, `None` past its end.
    pub fn next_related(&mut self) -> (r: Option<EntityId>)
        requires
            old(self).row_ready(),
        ensures
            final(self).cid_spec() == old(self).cid_spec(),
            final(self).column_spec() == old(self).column_spec(),
            final(self).row_spec() == old(self).row_spec(),
            final(self).related_seq() == old(self).related_seq(),
            final(self).related_set() == old(self).related_set(),
            final(self).row_ready(),
            final(self).index_spec() == (if old(self).index_spec() == u32::MAX {
                0
            } else {
                (old(self).index_spec() + 1) as u32
            }),
            r == (if final(self).index_spec() < old(self).related_seq().len() {
                Some(EntityId(old(self).related_seq()[final(self).index_spec() as int]))
            } else {
                None::<EntityId>
            }),
    {
        self.rel_index = if self.rel_index == u32::MAX { 0 } else { self.rel_index + 1 };
        if self.cid.is_transitive() {
            if (self.rel_index as usize) < self.transitive_vec.len() {
                Some(EntityId(self.transitive_vec[self.rel_index as usize]))
            } else {
                None
            }
        } else {
            let col = self.column.unwrap();
            match col.get(self.row) {
                ComponentValue::Relation(rv) => {
                    if self.rel_index >= rv.len() {
                        None
                    } else {
                        Some(EntityId(rv.get(self.rel_index as usize)))
                    }
                },
                ComponentValue::Data(_) => {
                    proof {
                        assert(false);
                    }
                    None
                },
            }
        }
    }

    /// Whether `id` is one of the ids of the walk.
    pub fn has_relation(&self, id: EntityId) -> (r: bool)
        requires
            self.row_ready(),
        ensures
            r == self.related_set().contains(id.0),
    {
        broadcast use vstd::std_specs::hash::group_hash_axioms;

        if self.cid.is_transitive() {
            self.transitive_set.contains(&id.0)
        } else {
            let col = self.column.unwrap();
            match col.get(self.row) {
                ComponentValue::Relation(rv) => {
                    let r = rv.contains(id.0);
                    proof {
                        assert(rv@.contains(id.0) <==> rv@.to_set().contains(id.0));
                    }
                    r
                },
                ComponentValue::Data(_) => {
                    proof {
                        assert(false);
                    }
                    false
                },
            }
        }
    }
}

/// A negated relation constraint: satisfied when the entity at the current row has no such
/// relation side, or its walk does not contain the other entity.
pub struct UnrelationHelper<'a, V> {
    rel: RelationHelper<'a, V>,
}

impl<'a, V> UnrelationHelper<'a, V> {
    pub closed spec fn helper(&self) -> RelationHelper<'a, V> {
        self.rel
    }

    pub fn new(cid: ComponentId) -> (r: Self)
        ensures
            r.helper().cid_spec() == cid,
            r.helper().column_spec() is None,
    {
        Self { rel: RelationHelper::new(cid) }
    }

    /// Uses the archetype's column of the relation side, if it has one.
    pub fn set_col(&mut self, archetype: &'a Archetype<V>)
        requires
            archetype.wf(),
        ensures
            final(self).helper().cid_spec() == old(self).helper().cid_spec(),
            archetype.components@.contains(old(self).helper().cid_spec()) ==> final(self).helper().column_spec()
                == Some(&archetype.columns@[archetype.components@.index_of(old(self).helper().cid_spec())]),
            !archetype.components@.contains(old(self).helper().cid_spec()) ==> final(self).helper().column_spec() is None,
    {
        self.rel.column = archetype.find_column_opt(self.rel.cid);
    }

    pub fn set_row(&mut self, bk: &Bookkeeping<V>, row_counter: u32)
        requires
            bk.wf(),
            bk.valid_cid(old(self).helper().cid_spec()),
            old(self).helper().cid_spec().spec_is_relation(),
            old(self).helper().column_spec() matches Some(col) ==> RelationHelper::relation_at(col, row_counter),
        ensures
            final(self).helper().cid_spec() == old(self).helper().cid_spec(),
            final(self).helper().column_spec() == old(self).helper().column_spec(),
            final(self).helper().column_spec() is Some ==> final(self).helper().row_ready()
                && final(self).helper().current_vec() == RelationHelper::vec_at(
                old(self).helper().column_spec().unwrap(),
                row_counter,
            ),
            final(self).helper().column_spec() is Some && final(self).helper().cid_spec().spec_is_transitive() ==> forall|y: u32|
                #[trigger] final(self).helper().related_set().contains(y) <==> bk.in_closure(
                    final(self).helper().cid_spec(),
                    final(self).helper().current_vec(),
                    y,
                ),
            final(self).helper().column_spec() is Some && !final(self).helper().cid_spec().spec_is_transitive()
                ==> final(self).helper().related_set() == final(self).helper().current_vec().to_set(),
            final(self).helper().column_spec() is None ==> *final(self) == *old(self),
    {
        if self.rel.column.is_some() {
            self.rel.set_row(bk, row_counter);
        }
    }

    /// An unrelation is satisfied if the relation side does not exist in the archetype, or
    /// the walk does not contain the other entity.
    pub fn satisfied(&self, other: EntityId) -> (r: bool)
        requires
            self.helper().column_spec() is Some ==> self.helper().row_ready(),
        ensures
            r == (self.helper().column_spec() is None || !self.helper().related_set().contains(other.0)),
    {
        if self.rel.column.is_none() {
            return true;
        }
        return !self.rel.has_relation(other);
    }
}

/// The living entities that have the component `cid`, archetype by archetype.
pub fn trivial_query_one_component<V>(bk: &Bookkeeping<V>, cid: ComponentId) -> (r: Vec<EntityId>)
    requires
        bk.wf(),
        bk.valid_cid(cid),
        !cid.spec_is_target(),
    ensures
        forall|i: int, j: int| 0 <= i < j < r@.len() ==> r@[i] != r@[j],
        forall|x: u32|
            #[trigger] r@.contains(EntityId(x)) <==> (bk.entities.slot_alive(x as int) && bk.entity_key(
                x as int,
            ).contains(cid)),
{
    bk.entities_with(cid)
}

/// Moves the archetype of `variable` to the next one of `archetype_set` and resets its row
/// counter; false when the set is exhausted. `next_index` starts at 0.
pub fn grab_archetype_id(
    var_archetype_id: &mut [ArchetypeId],
    var_archetype_row: &mut [ArchetypeRow],
    variable: usize,
    archetype_set: &Vec<ArchetypeId>,
    next_index: &mut usize,
) -> (r: bool)
    requires
        variable < old(var_archetype_id)@.len(),
        variable < old(var_archetype_row)@.len(),
    ensures
        r == (*old(next_index) < archetype_set@.len()),
        r ==> final(var_archetype_id)@ == old(var_archetype_id)@.update(
            variable as int,
            archetype_set@[*old(next_index) as int],
        ) && final(var_archetype_row)@ == old(var_archetype_row)@.update(
            variable as int,
            ArchetypeRow(u32::MAX),
        ) && *final(next_index) == *old(next_index) + 1,
        !r ==> final(var_archetype_id)@ == old(var_archetype_id)@ && final(var_archetype_row)@ == old(var_archetype_row)@ && *final(next_index) == *old(next_index),
{
    if *next_index >= archetype_set.len() {
        return false;
    }
    var_archetype_id[variable] = archetype_set[*next_index];
    var_archetype_row[variable] = ArchetypeRow(u32::MAX);
    *next_index += 1;
    return true;
}

/// Moves the row counter of `variable` to the next row of its archetype (the reset value
/// `u32::MAX` rolls over to 0); false past the last row.
pub fn grab_archetype_row<V>(
    var_archetype_id: &[ArchetypeId],
    var_archetype_row: &mut [ArchetypeRow],
    variable: usize,
    bk: &Bookkeeping<V>,
) -> (r: bool)
    requires
        variable < var_archetype_id@.len(),
        variable < old(var_archetype_row)@.len(),
        var_archetype_id@[variable as int].0 < bk.archetypes@.len(),
        old(var_archetype_row)@[variable as int].0 != u32::MAX - 1,
    ensures
        final(var_archetype_row)@ == old(var_archetype_row)@.update(
            variable as int,
            ArchetypeRow(
                if old(var_archetype_row)@[variable as int].0 == u32::MAX {
                    0
                } else {
                    (old(var_archetype_row)@[variable as int].0 + 1) as u32
                },
            ),
        ),
        r == (final(var_archetype_row)@[variable as int].0 < bk.archetypes@[var_archetype_id@[variable as int].0 as int].entities@.len()),
{
    let cur = var_archetype_row[variable].0;
    let next = if cur == u32::MAX { 0 } else { cur + 1 };
    var_archetype_row[variable] = ArchetypeRow(next);
    let a = var_archetype_id[variable].0 as usize;
    return (next as usize) < bk.archetypes[a].entities.len();
}

} // verus!
