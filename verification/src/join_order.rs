//! The order in which a query binds its variables: first the variables bound
//! from outside, then, relation by relation, the variables reachable from those
//! already bound, starting from the most constrained variable when nothing is
//! bound yet. Every constraint (`a != b`, a relation between two bound
//! variables, a negated relation) is checked as soon as both its variables are bound.
use crate::generator::{rels_view, RelationHelperInfo, UnrelationHelperInfo, VarInfo};
use crate::query_terms::ANYVAR;
use std::ops::Range;
use vstd::prelude::*;

verus! {

#[derive(Debug, PartialEq, Eq, Clone, Copy)]
pub struct RelationConstraint {
    pub helper_nr: usize,
    /// only necessary for invar checks
    /// when joining we always check the just joined id
    pub checked_invar: Option<isize>,
}

#[derive(Debug, PartialEq, Eq, Clone, Copy)]
pub struct UnrelationConstraint {
    pub helper_nr: usize,
    /// only necessary for invar checks
    /// when joining we always check the just joined id
    pub checked_invar: Option<isize>,
}

#[derive(Debug, PartialEq, Eq)]
pub enum JoinKind {
    InitInvars(InitInvars),
    InitVar(isize),
    InnerJoin(NewJoin),
}

#[derive(Debug, PartialEq, Eq)]
pub struct InitInvars {
    pub invar_unequals: Vec<(isize, isize)>,
    pub invar_rel_constraints: Vec<RelationConstraint>,
    pub invar_unrel_constraints: Vec<UnrelationConstraint>,
}

#[derive(Debug, PartialEq, Eq)]
pub struct NewJoin {
    pub new: isize,
    pub unequal_constraints: Vec<(isize, isize)>,
    pub rel_constraints: Vec<RelationConstraint>,
    pub unrel_constraints: Vec<UnrelationConstraint>,
}

pub enum JoinKindView {
    InitInvars(Seq<(isize, isize)>, Seq<RelationConstraint>, Seq<UnrelationConstraint>),
    InitVar(isize),
    InnerJoin(isize, Seq<(isize, isize)>, Seq<RelationConstraint>, Seq<UnrelationConstraint>),
}

impl View for JoinKind {
    type V = JoinKindView;

    open spec fn view(&self) -> JoinKindView {
        match self {
            JoinKind::InitInvars(i) => JoinKindView::InitInvars(
                i.invar_unequals@,
                i.invar_rel_constraints@,
                i.invar_unrel_constraints@,
            ),
            JoinKind::InitVar(v) => JoinKindView::InitVar(*v),
            JoinKind::InnerJoin(j) => JoinKindView::InnerJoin(
                j.new,
                j.unequal_constraints@,
                j.rel_constraints@,
                j.unrel_constraints@,
            ),
        }
    }
}

pub struct UnrelHelperView {
    pub ty: Seq<char>,
    pub flip_target: bool,
    pub old_var: isize,
    pub new_var: isize,
    pub nr: usize,
}

impl View for UnrelationHelperInfo {
    type V = UnrelHelperView;

    open spec fn view(&self) -> UnrelHelperView {
        UnrelHelperView {
            ty: self.ty@,
            flip_target: self.flip_target,
            old_var: self.old_var,
            new_var: self.new_var,
            nr: self.nr,
        }
    }
}

/// What planning changes in a variable info.
pub struct InfoPlan {
    pub rank: Option<u32>,
    pub rel_helpers: Seq<RelationHelperInfo>,
    pub unrel_helpers: Seq<UnrelHelperView>,
    pub join_helper: Option<usize>,
}

pub open spec fn info_plan(info: VarInfo) -> InfoPlan {
    InfoPlan {
        rank: info.init_rank,
        rel_helpers: info.relation_helpers@,
        unrel_helpers: info.unrelation_helpers@.map_values(|u: UnrelationHelperInfo| u@),
        join_helper: info.join_helper_index,
    }
}

/// What planning reads of the variable infos and leaves as it is.
pub struct PlanInput {
    pub indices: Seq<isize>,
    pub related: Seq<Seq<((Seq<char>, isize), usize)>>,
    pub starts: Seq<usize>,
    pub widths: Seq<int>,
}

/// How many component ids a range holds.
pub open spec fn range_len(r: Range<usize>) -> int {
    if r.end >= r.start {
        r.end - r.start
    } else {
        0
    }
}

pub open spec fn plan_input(infos: Seq<VarInfo>) -> PlanInput {
    PlanInput {
        indices: infos.map_values(|i: VarInfo| i.index),
        related: infos.map_values(
            |i: VarInfo|
                i.related_with@.map_values(|e: ((String, isize), usize)| ((e.0.0@, e.0.1), e.1)),
        ),
        starts: infos.map_values(|i: VarInfo| i.component_range.start),
        widths: infos.map_values(|i: VarInfo| range_len(i.component_range)),
    }
}

/// The planner midway: the variable infos as far as planning changes them,
/// the relations, unequalities and negated relations not placed yet, the
/// variables bound so far in order, the steps so far, the next rank and
/// helper number; `ok` is false once the planner would have stopped.
pub struct PlanState {
    pub infos: Seq<InfoPlan>,
    pub relations_left: Seq<(Seq<char>, isize, isize)>,
    pub unequals: Seq<(isize, isize)>,
    pub unrelations_left: Seq<(Seq<char>, isize, isize, usize)>,
    pub available: Seq<isize>,
    pub result: Seq<JoinKindView>,
    pub init_rank: nat,
    pub helper_nr: nat,
    pub ok: bool,
}

/// The position of the first element of `s` that `p` holds of; -1 when none.
#[verifier::opaque]
pub open spec fn first_where<A>(s: Seq<A>, p: spec_fn(A) -> bool) -> int {
    if exists|i: int| 0 <= i < s.len() && p(s[i]) {
        choose|i: int| 0 <= i < s.len() && p(s[i]) && forall|j: int| 0 <= j < i ==> !p(s[j])
    } else {
        -1
    }
}

pub proof fn lemma_first_where<A>(s: Seq<A>, p: spec_fn(A) -> bool, i: int)
    requires
        0 <= i < s.len(),
        p(s[i]),
        forall|j: int| 0 <= j < i ==> !p(s[j]),
    ensures
        first_where(s, p) == i,
{
    reveal(first_where);
    let c = first_where(s, p);
    assert(0 <= c < s.len() && p(s[c]) && forall|j: int| 0 <= j < c ==> !p(s[j]));
    if c < i {
        assert(!p(s[c]));
    } else if c > i {
        assert(!p(s[i]));
    }
}

pub proof fn lemma_first_where_none<A>(s: Seq<A>, p: spec_fn(A) -> bool)
    requires
        forall|j: int| 0 <= j < s.len() ==> !p(s[j]),
    ensures
        first_where(s, p) == -1,
{
    reveal(first_where);
}

/// `s` with its `i`th element replaced by the last one, and one shorter.
pub open spec fn swap_remove<A>(s: Seq<A>, i: int) -> Seq<A> {
    s.update(i, s.last()).drop_last()
}

/// The column of the relation `key` in a variable's `related_with`: the last
/// entry for it counts.
pub open spec fn column_of(rel: Seq<((Seq<char>, isize), usize)>, key: (Seq<char>, isize)) -> Option<
    usize,
>
    decreases rel.len(),
{
    if rel.len() == 0 {
        None
    } else if rel.last().0 == key {
        Some(rel.last().1)
    } else {
        column_of(rel.drop_last(), key)
    }
}

pub open spec fn stop(st: PlanState) -> PlanState {
    PlanState { ok: false, ..st }
}

/// A variable number that indexes the infos.
pub open spec fn in_range(st: PlanState, v: isize) -> bool {
    0 <= v < st.infos.len()
}

pub open spec fn pair_ready(avail: Seq<isize>) -> spec_fn((isize, isize)) -> bool {
    |p: (isize, isize)| avail.contains(p.0) && avail.contains(p.1)
}

pub open spec fn rel_ready(avail: Seq<isize>) -> spec_fn((Seq<char>, isize, isize)) -> bool {
    |r: (Seq<char>, isize, isize)| avail.contains(r.1) && avail.contains(r.2)
}

pub open spec fn rel_touches(avail: Seq<isize>) -> spec_fn((Seq<char>, isize, isize)) -> bool {
    |r: (Seq<char>, isize, isize)| avail.contains(r.1) || avail.contains(r.2)
}

pub open spec fn unrel_ready(avail: Seq<isize>) -> spec_fn((Seq<char>, isize, isize, usize)) -> bool {
    |r: (Seq<char>, isize, isize, usize)| avail.contains(r.1) && avail.contains(r.2)
}

/// Takes out, first found first, the unequalities whose variables are both
/// bound: what is left, and what was taken in order.
pub open spec fn ready_pairs(ue: Seq<(isize, isize)>, avail: Seq<isize>) -> (Seq<(isize, isize)>, Seq<(isize, isize)>)
    decreases ue.len(),
{
    let i = first_where(ue, pair_ready(avail));
    if 0 <= i < ue.len() {
        let (left, rest) = ready_pairs(swap_remove(ue, i), avail);
        (left, seq![ue[i]] + rest)
    } else {
        (ue, Seq::empty())
    }
}

pub open spec fn take_unequals(st: PlanState) -> (PlanState, Seq<(isize, isize)>) {
    let (left, taken) = ready_pairs(st.unequals, st.available);
    (PlanState { unequals: left, ..st }, taken)
}

/// The earlier bound of `a` and `b` first; on equal ranks `b` first.
pub open spec fn by_rank(infos: Seq<InfoPlan>, a: isize, b: isize) -> (isize, isize) {
    if infos[a as int].rank.unwrap() < infos[b as int].rank.unwrap() {
        (a, b)
    } else {
        (b, a)
    }
}

/// Notes in the infos that the relation from `old` to `new` is followed
/// by helper `nr`, found in `old`'s column `col`.
pub open spec fn add_helper(infos: Seq<InfoPlan>, old: isize, new: isize, col: usize, start: usize, nr: nat) -> Seq<InfoPlan> {
    let h = RelationHelperInfo {
        cid_index: (col - start) as usize,
        column_index: col,
        old_var: old,
        new_var: new,
        nr: nr as usize,
    };
    let i2 = infos.update(old as int, InfoPlan { rel_helpers: infos[old as int].rel_helpers.push(h), ..infos[old as int] });
    i2.update(new as int, InfoPlan { join_helper: Some(nr as usize), ..i2[new as int] })
}

/// The infos, the relations not placed, the next helper number, and whether
/// the planner is still going.
pub struct HelperState {
    pub infos: Seq<InfoPlan>,
    pub left: Seq<(Seq<char>, isize, isize)>,
    pub nr: nat,
    pub ok: bool,
}

/// Takes out, first found first, the relations whose variables are both bound:
/// each becomes a check with a helper on the earlier bound variable.
pub open spec fn ready_relations(hs: HelperState, avail: Seq<isize>, inp: PlanInput) -> (HelperState, Seq<RelationConstraint>)
    decreases hs.left.len(),
{
    let i = first_where(hs.left, rel_ready(avail));
    if !hs.ok || !(0 <= i < hs.left.len()) {
        (hs, Seq::empty())
    } else {
        let r = hs.left[i];
        if !(0 <= r.1 < hs.infos.len() && 0 <= r.2 < hs.infos.len()) || hs.infos[r.1 as int].rank is None
            || hs.infos[r.2 as int].rank is None {
            (HelperState { ok: false, ..hs }, Seq::empty())
        } else {
            let (old, new) = by_rank(hs.infos, r.1, r.2);
            let col = column_of(inp.related[old as int], (r.0, new));
            if inp.indices[old as int] != old || col is None || col.unwrap() < inp.starts[old as int]
                || hs.nr >= usize::MAX {
                (HelperState { ok: false, ..hs }, Seq::empty())
            } else {
                let hs2 = HelperState {
                    infos: add_helper(hs.infos, old, new, col.unwrap(), inp.starts[old as int], hs.nr),
                    left: swap_remove(hs.left, i),
                    nr: hs.nr + 1,
                    ok: true,
                };
                let (hs3, rest) = ready_relations(hs2, avail, inp);
                (hs3, seq![RelationConstraint { helper_nr: hs.nr as usize, checked_invar: Some(new) }] + rest)
            }
        }
    }
}

pub open spec fn take_constraints(st: PlanState, inp: PlanInput) -> (PlanState, Seq<RelationConstraint>) {
    let (hs, rc) = ready_relations(
        HelperState { infos: st.infos, left: st.relations_left, nr: st.helper_nr, ok: st.ok },
        st.available,
        inp,
    );
    (PlanState { infos: hs.infos, relations_left: hs.left, helper_nr: hs.nr, ok: hs.ok, ..st }, rc)
}

/// Notes in the infos that the negated relation between `old` and `new` is
/// checked by helper `nr` of `old`.
pub open spec fn add_unrel_helper(
    infos: Seq<InfoPlan>,
    old: isize,
    new: isize,
    ty: Seq<char>,
    flip: bool,
    nr: usize,
) -> Seq<InfoPlan> {
    let h = UnrelHelperView { ty, flip_target: flip, old_var: old, new_var: new, nr };
    let i2 = infos.update(old as int, InfoPlan { unrel_helpers: infos[old as int].unrel_helpers.push(h), ..infos[old as int] });
    i2.update(new as int, InfoPlan { join_helper: Some(nr), ..i2[new as int] })
}

/// The infos, the negated relations not placed, and whether the planner is still going.
pub struct UnrelState {
    pub infos: Seq<InfoPlan>,
    pub left: Seq<(Seq<char>, isize, isize, usize)>,
    pub ok: bool,
}

/// Takes out, first found first, the negated relations whose variables are
/// both bound: each becomes a check with a helper on the earlier bound variable.
pub open spec fn ready_unrelations(us: UnrelState, avail: Seq<isize>, inp: PlanInput) -> (UnrelState, Seq<UnrelationConstraint>)
    decreases us.left.len(),
{
    let i = first_where(us.left, unrel_ready(avail));
    if !us.ok || !(0 <= i < us.left.len()) {
        (us, Seq::empty())
    } else {
        let r = us.left[i];
        if !(0 <= r.1 < us.infos.len() && 0 <= r.2 < us.infos.len()) || us.infos[r.1 as int].rank is None
            || us.infos[r.2 as int].rank is None {
            (UnrelState { ok: false, ..us }, Seq::empty())
        } else {
            let flip = !(us.infos[r.1 as int].rank.unwrap() < us.infos[r.2 as int].rank.unwrap());
            let (old, new) = by_rank(us.infos, r.1, r.2);
            if inp.indices[old as int] != old {
                (UnrelState { ok: false, ..us }, Seq::empty())
            } else {
                let i3 = add_unrel_helper(us.infos, old, new, r.0, flip, r.3);
                let us2 = UnrelState { infos: i3, left: swap_remove(us.left, i), ok: true };
                let (us3, rest) = ready_unrelations(us2, avail, inp);
                (us3, seq![UnrelationConstraint { helper_nr: r.3, checked_invar: Some(new) }] + rest)
            }
        }
    }
}

pub open spec fn take_unrelations(st: PlanState, inp: PlanInput) -> (PlanState, Seq<UnrelationConstraint>) {
    let (us, urc) = ready_unrelations(
        UnrelState { infos: st.infos, left: st.unrelations_left, ok: st.ok },
        st.available,
        inp,
    );
    (PlanState { infos: us.infos, unrelations_left: us.left, ok: us.ok, ..st }, urc)
}

pub proof fn lemma_ready_relations(hs: HelperState, avail: Seq<isize>, inp: PlanInput)
    ensures
        ready_relations(hs, avail, inp).0.left.len() <= hs.left.len(),
        ready_relations(hs, avail, inp).0.ok ==> hs.ok,
        ready_relations(hs, avail, inp).0.infos.len() == hs.infos.len(),
        ready_relations(hs, avail, inp).0.nr >= hs.nr,
    decreases hs.left.len(),
{
    let i = first_where(hs.left, rel_ready(avail));
    if hs.ok && 0 <= i < hs.left.len() {
        let r = hs.left[i];
        if (0 <= r.1 < hs.infos.len() && 0 <= r.2 < hs.infos.len()) && hs.infos[r.1 as int].rank is Some
            && hs.infos[r.2 as int].rank is Some {
            let (old, new) = by_rank(hs.infos, r.1, r.2);
            let col = column_of(inp.related[old as int], (r.0, new));
            if !(inp.indices[old as int] != old || col is None || col.unwrap() < inp.starts[old as int]
                || hs.nr >= usize::MAX) {
                lemma_ready_relations(
                    HelperState {
                        infos: add_helper(hs.infos, old, new, col.unwrap(), inp.starts[old as int], hs.nr),
                        left: swap_remove(hs.left, i),
                        nr: hs.nr + 1,
                        ok: true,
                    },
                    avail,
                    inp,
                );
            }
        }
    }
}

pub proof fn lemma_ready_unrelations(us: UnrelState, avail: Seq<isize>, inp: PlanInput)
    ensures
        ready_unrelations(us, avail, inp).0.left.len() <= us.left.len(),
        ready_unrelations(us, avail, inp).0.ok ==> us.ok,
        ready_unrelations(us, avail, inp).0.infos.len() == us.infos.len(),
    decreases us.left.len(),
{
    let i = first_where(us.left, unrel_ready(avail));
    if us.ok && 0 <= i < us.left.len() {
        let r = us.left[i];
        if (0 <= r.1 < us.infos.len() && 0 <= r.2 < us.infos.len()) && us.infos[r.1 as int].rank is Some
            && us.infos[r.2 as int].rank is Some {
            let flip = !(us.infos[r.1 as int].rank.unwrap() < us.infos[r.2 as int].rank.unwrap());
            let (old, new) = by_rank(us.infos, r.1, r.2);
            if inp.indices[old as int] == old {
                let i3 = add_unrel_helper(us.infos, old, new, r.0, flip, r.3);
                lemma_ready_unrelations(UnrelState { infos: i3, left: swap_remove(us.left, i), ok: true }, avail, inp);
            }
        }
    }
}

/// Taking out the checks only shortens what is left to place, and only stops
/// where the planner would.
pub proof fn lemma_take_constraints(st: PlanState, inp: PlanInput)
    ensures
        take_constraints(st, inp).0.relations_left.len() <= st.relations_left.len(),
        take_constraints(st, inp).0.ok ==> st.ok,
        take_constraints(st, inp).0.infos.len() == st.infos.len(),
{
    lemma_ready_relations(
        HelperState { infos: st.infos, left: st.relations_left, nr: st.helper_nr, ok: st.ok },
        st.available,
        inp,
    );
}

pub proof fn lemma_take_unrelations(st: PlanState, inp: PlanInput)
    ensures
        take_unrelations(st, inp).0.unrelations_left.len() <= st.unrelations_left.len(),
        take_unrelations(st, inp).0.ok ==> st.ok,
        take_unrelations(st, inp).0.relations_left == st.relations_left,
        take_unrelations(st, inp).0.infos.len() == st.infos.len(),
{
    lemma_ready_unrelations(UnrelState { infos: st.infos, left: st.unrelations_left, ok: st.ok }, st.available, inp);
}

/// Checks placed with a join need not name the joined variable.
pub open spec fn unchecked(rc: Seq<RelationConstraint>) -> Seq<RelationConstraint> {
    rc.map_values(|c: RelationConstraint| RelationConstraint { checked_invar: None, ..c })
}

pub open spec fn unchecked_un(rc: Seq<UnrelationConstraint>) -> Seq<UnrelationConstraint> {
    rc.map_values(|c: UnrelationConstraint| UnrelationConstraint { checked_invar: None, ..c })
}

/// The variable that relation `join` binds, and the bound one it starts from.
pub open spec fn join_ends(st: PlanState, join: (Seq<char>, isize, isize)) -> (isize, isize) {
    if st.available.contains(join.2) {
        (join.2, join.1)
    } else {
        (join.1, join.2)
    }
}

/// The planner would stop on joining relation `i`.
pub open spec fn join_fails(st: PlanState, inp: PlanInput, i: int) -> bool {
    let join = st.relations_left[i];
    let (old, new) = join_ends(st, join);
    let col = column_of(inp.related[old as int], (join.0, new));
    !(in_range(st, old) && in_range(st, new)) || inp.indices[old as int] != old || col is None
        || col.unwrap() < inp.starts[old as int] || st.helper_nr >= usize::MAX || st.init_rank >= u32::MAX
}

/// Binds the variable that relation `i` leads to.
pub open spec fn bind_step(st: PlanState, inp: PlanInput, i: int) -> PlanState {
    let join = st.relations_left[i];
    let (old, new) = join_ends(st, join);
    let col = column_of(inp.related[old as int], (join.0, new)).unwrap();
    let i2 = add_helper(st.infos, old, new, col, inp.starts[old as int], st.helper_nr);
    let i3 = i2.update(new as int, InfoPlan { rank: Some(st.init_rank as u32), ..i2[new as int] });
    PlanState {
        infos: i3,
        relations_left: st.relations_left.remove(i),
        available: st.available.push(new),
        init_rank: st.init_rank + 1,
        helper_nr: st.helper_nr + 1,
        ..st
    }
}

/// The checks that became possible after binding `new`, as one join step.
pub open spec fn checks_step(st1: PlanState, inp: PlanInput, new: isize) -> PlanState {
    let (st2, ue) = take_unequals(st1);
    let (st3, rc) = take_constraints(st2, inp);
    let (st4, urc) = take_unrelations(st3, inp);
    PlanState {
        result: st4.result.push(JoinKindView::InnerJoin(new, ue, unchecked(rc), unchecked_un(urc))),
        ..st4
    }
}

/// One join: relation `i` binds its other variable; then the checks that became possible.
pub open spec fn join_step(st: PlanState, inp: PlanInput, i: int) -> PlanState {
    if join_fails(st, inp, i) {
        stop(st)
    } else {
        checks_step(bind_step(st, inp, i), inp, join_ends(st, st.relations_left[i]).1)
    }
}

pub proof fn lemma_checks_step(st1: PlanState, inp: PlanInput, new: isize)
    ensures
        checks_step(st1, inp, new).relations_left.len() <= st1.relations_left.len(),
        checks_step(st1, inp, new).ok ==> st1.ok,
{
    let (st2, ue) = take_unequals(st1);
    lemma_take_constraints(st2, inp);
    let (st3, rc) = take_constraints(st2, inp);
    lemma_take_unrelations(st3, inp);
}

pub proof fn lemma_join_step(st: PlanState, inp: PlanInput, i: int)
    requires
        0 <= i < st.relations_left.len(),
        !join_fails(st, inp, i),
    ensures
        join_step(st, inp, i).relations_left.len() < st.relations_left.len(),
        join_step(st, inp, i).ok ==> st.ok,
{
    if !join_fails(st, inp, i) {
        let st1 = bind_step(st, inp, i);
        assert(st1.relations_left.len() == st.relations_left.len() - 1);
        lemma_checks_step(st1, inp, join_ends(st, st.relations_left[i]).1);
    }
}

/// Joins while some relation left has a bound variable; true when none is left.
pub open spec fn inner_joins(st: PlanState, inp: PlanInput) -> (PlanState, bool)
    decreases st.relations_left.len(),
{
    if !st.ok || st.relations_left.len() == 0 {
        (st, true)
    } else {
        let i = first_where(st.relations_left, rel_touches(st.available));
        if !(0 <= i < st.relations_left.len()) {
            (st, false)
        } else if join_fails(st, inp, i) {
            (stop(st), true)
        } else {
            proof {
                lemma_join_step(st, inp, i);
            }
            inner_joins(join_step(st, inp, i), inp)
        }
    }
}

/// `k` is the info the planner starts from when the relations bind no more:
/// among those not bound, the last one with the most component ids.
pub open spec fn is_pick(st: PlanState, inp: PlanInput, k: int) -> bool {
    &&& 0 <= k < inp.indices.len()
    &&& !st.available.contains(inp.indices[k])
    &&& forall|j: int|
        0 <= j < inp.indices.len() && !st.available.contains(inp.indices[j]) ==> inp.widths[j]
            <= inp.widths[k]
    &&& forall|j: int|
        k < j < inp.indices.len() && !st.available.contains(inp.indices[j]) ==> inp.widths[j]
            < inp.widths[k]
}

pub open spec fn pick(st: PlanState, inp: PlanInput) -> int {
    if exists|k: int| is_pick(st, inp, k) {
        choose|k: int| is_pick(st, inp, k)
    } else {
        -1
    }
}

/// The keys in `0..m`, ascending.
pub open spec fn keys_below(ks: Seq<isize>, m: int) -> Seq<isize>
    decreases m,
{
    if m <= 0 {
        Seq::empty()
    } else if ks.contains((m - 1) as isize) {
        keys_below(ks, m - 1).push((m - 1) as isize)
    } else {
        keys_below(ks, m - 1)
    }
}

/// The variables bound from outside get the first ranks, in the order of `keys`.
pub open spec fn assign_ranks(infos: Seq<InfoPlan>, keys: Seq<isize>) -> Seq<InfoPlan>
    decreases keys.len(),
{
    if keys.len() == 0 {
        infos
    } else {
        let prev = assign_ranks(infos, keys.drop_last());
        prev.update(keys.last() as int, InfoPlan { rank: Some((keys.len() - 1) as u32), ..prev[keys.last() as int] })
    }
}

/// The relations between two variables; those with `_` on a side only
/// narrow the archetypes and are no joins.
pub open spec fn non_any_rels(rs: Seq<(Seq<char>, isize, isize)>) -> Seq<(Seq<char>, isize, isize)>
    decreases rs.len(),
{
    if rs.len() == 0 {
        Seq::empty()
    } else if rs.last().1 != ANYVAR && rs.last().2 != ANYVAR {
        non_any_rels(rs.drop_last()).push(rs.last())
    } else {
        non_any_rels(rs.drop_last())
    }
}

pub open spec fn non_any_unrels(rs: Seq<(Seq<char>, isize, isize, usize)>) -> Seq<(Seq<char>, isize, isize, usize)>
    decreases rs.len(),
{
    if rs.len() == 0 {
        Seq::empty()
    } else if rs.last().1 != ANYVAR && rs.last().2 != ANYVAR {
        non_any_unrels(rs.drop_last()).push(rs.last())
    } else {
        non_any_unrels(rs.drop_last())
    }
}

pub open spec fn start_state(
    infos: Seq<InfoPlan>,
    rels: Seq<(Seq<char>, isize, isize)>,
    unequals: Seq<(isize, isize)>,
    unrels: Seq<(Seq<char>, isize, isize, usize)>,
) -> PlanState {
    PlanState {
        infos,
        relations_left: non_any_rels(rels),
        unequals,
        unrelations_left: non_any_unrels(unrels),
        available: Seq::empty(),
        result: Seq::empty(),
        init_rank: 0,
        helper_nr: 0,
        ok: true,
    }
}

/// The variables bound from outside come first, in ascending order, with the
/// checks among them.
pub open spec fn invar_phase(st0: PlanState, inp: PlanInput, pk: Seq<isize>) -> PlanState {
    let n = st0.infos.len() as int;
    let keys = keys_below(pk, n);
    if pk.len() == 0 {
        st0
    } else if (exists|j: int| 0 <= j < pk.len() && !(0 <= #[trigger] pk[j] < n)) || keys.len() > u32::MAX {
        stop(st0)
    } else {
        let sa = PlanState {
            available: keys,
            infos: assign_ranks(st0.infos, keys),
            init_rank: keys.len(),
            ..st0
        };
        let (sb, ue) = take_unequals(sa);
        let (sc, rc) = take_constraints(sb, inp);
        let (sd, urc) = take_unrelations(sc, inp);
        PlanState { result: sd.result.push(JoinKindView::InitInvars(ue, rc, urc)), ..sd }
    }
}

/// Binds the picked variable when the relations bind no more.
pub open spec fn init_var_step(st: PlanState, inp: PlanInput) -> PlanState {
    let k = pick(st, inp);
    if k < 0 || st.init_rank >= u32::MAX {
        stop(st)
    } else {
        let v = inp.indices[k];
        PlanState {
            infos: st.infos.update(k, InfoPlan { rank: Some(st.init_rank as u32), ..st.infos[k] }),
            init_rank: st.init_rank + 1,
            available: st.available.push(v),
            result: st.result.push(JoinKindView::InitVar(v)),
            ..st
        }
    }
}

/// The planner up to its last checks: the variables bound from outside, the
/// joins from them, and, when these do not bind every variable, the joins from
/// the picked starting variable.
pub open spec fn plan_steps(
    inp: PlanInput,
    infos: Seq<InfoPlan>,
    pk: Seq<isize>,
    rels: Seq<(Seq<char>, isize, isize)>,
    unequals: Seq<(isize, isize)>,
    unrels: Seq<(Seq<char>, isize, isize, usize)>,
) -> PlanState {
    let n = infos.len();
    let st1 = invar_phase(start_state(infos, rels, unequals, unrels), inp, pk);
    let (st2, d1) = inner_joins(st1, inp);
    if !st2.ok || (d1 && st2.available.len() == n) {
        st2
    } else {
        let (st4, d2) = inner_joins(init_var_step(st2, inp), inp);
        if d2 && st4.available.len() == n {
            st4
        } else {
            stop(st4)
        }
    }
}

/// The planner ends with every variable bound and ranked and no unequality left.
pub open spec fn plan_complete(st: PlanState, n: nat) -> bool {
    &&& st.available.len() == n
    &&& st.unequals.len() == 0
    &&& forall|k: int| 0 <= k < n ==> (#[trigger] st.infos[k]).rank is Some
}

/// The whole plan; `ok` tells that the planner gets through without stopping,
/// which it does on cross joins (variables that no relation connects to the
/// rest), on a relation whose column it cannot find, and on unequalities left
/// over. A negated relation whose variables are only both bound by the last
/// starting variable is left out of the plan.
pub open spec fn plan(
    inp: PlanInput,
    infos: Seq<InfoPlan>,
    pk: Seq<isize>,
    rels: Seq<(Seq<char>, isize, isize)>,
    unequals: Seq<(isize, isize)>,
    unrels: Seq<(Seq<char>, isize, isize, usize)>,
) -> PlanState {
    let st = plan_steps(inp, infos, pk, rels, unequals, unrels);
    if plan_complete(st, infos.len()) {
        st
    } else {
        stop(st)
    }
}

pub open spec fn unrels_view(v: Seq<(String, isize, isize, usize)>) -> Seq<(Seq<char>, isize, isize, usize)> {
    v.map_values(|u: (String, isize, isize, usize)| (u.0@, u.1, u.2, u.3))
}

pub open spec fn results_view(v: Seq<JoinKind>) -> Seq<JoinKindView> {
    v.map_values(|j: JoinKind| j@)
}

pub open spec fn plans_view(infos: Seq<VarInfo>) -> Seq<InfoPlan> {
    infos.map_values(|i: VarInfo| info_plan(i))
}

/// The planner's working state; the variable infos are kept apart.
struct JoinOrderComputer {
    relations_left: Vec<(String, isize, isize)>,
    unequals: Vec<(isize, isize)>,
    unrelations_left: Vec<(String, isize, isize, usize)>,
    available: Vec<isize>,
    result: Vec<JoinKind>,
    init_rank: u32,
    relation_helper_nr: usize,
}

spec fn state_view(c: JoinOrderComputer, infos: Seq<VarInfo>) -> PlanState {
    PlanState {
        infos: plans_view(infos),
        relations_left: rels_view(c.relations_left@),
        unequals: c.unequals@,
        unrelations_left: unrels_view(c.unrelations_left@),
        available: c.available@,
        result: results_view(c.result@),
        init_rank: c.init_rank as nat,
        helper_nr: c.relation_helper_nr as nat,
        ok: true,
    }
}

fn contains_var(v: &Vec<isize>, x: isize) -> (r: bool)
    ensures
        r == v@.contains(x),
{
    let mut i: usize = 0;
    while i < v.len()
        invariant
            0 <= i <= v.len(),
            forall|j: int| 0 <= j < i ==> v@[j] != x,
        decreases v.len() - i,
    {
        if v[i] == x {
            proof {
                assert(v@[i as int] == x);
            }
            return true;
        }
        i += 1;
    }
    false
}

/// The column of relation `ty` to `other` in `rel`: the last entry for it.
fn column_lookup(rel: &Vec<((String, isize), usize)>, ty: &String, other: isize) -> (r: Option<usize>)
    ensures
        r == column_of(
            rel@.map_values(|e: ((String, isize), usize)| ((e.0.0@, e.0.1), e.1)),
            (ty@, other),
        ),
{
    let ghost full = rel@.map_values(|e: ((String, isize), usize)| ((e.0.0@, e.0.1), e.1));
    let mut i: usize = rel.len();
    proof {
        assert(full.take(i as int) =~= full);
    }
    while i > 0
        invariant
            0 <= i <= rel@.len(),
            full == rel@.map_values(|e: ((String, isize), usize)| ((e.0.0@, e.0.1), e.1)),
            column_of(full, (ty@, other)) == column_of(full.take(i as int), (ty@, other)),
        decreases i,
    {
        let ((t, o), col) = &rel[i - 1];
        proof {
            assert(full.take(i as int).drop_last() =~= full.take(i - 1));
            assert(full.take(i as int).last() == full[i - 1]);
        }
        if *o == other && *t == *ty {
            return Some(*col);
        }
        i -= 1;
    }
    None
}

/// The position of the first unequality whose two variables are bound.
fn find_ready_pair(v: &Vec<(isize, isize)>, avail: &Vec<isize>) -> (r: Option<usize>)
    ensures
        match r {
            Some(i) => i < v@.len() && first_where(v@, pair_ready(avail@)) == i,
            None => first_where(v@, pair_ready(avail@)) == -1,
        },
{
    let mut i: usize = 0;
    while i < v.len()
        invariant
            0 <= i <= v.len(),
            forall|j: int| 0 <= j < i ==> !pair_ready(avail@)(v@[j]),
        decreases v.len() - i,
    {
        let (a, b) = v[i];
        if contains_var(avail, a) && contains_var(avail, b) {
            proof {
                lemma_first_where(v@, pair_ready(avail@), i as int);
            }
            return Some(i);
        }
        i += 1;
    }
    proof {
        lemma_first_where_none(v@, pair_ready(avail@));
    }
    None
}

/// Takes out, first found first, the unequalities whose variables are both bound.
fn newly_available_unequals(unequals: &mut Vec<(isize, isize)>, available: &Vec<isize>) -> (r: Vec<(isize, isize)>)
    ensures
        (final(unequals)@, r@) == ready_pairs(old(unequals)@, available@),
{
    let ghost orig = ready_pairs(unequals@, available@);
    let mut result: Vec<(isize, isize)> = Vec::new();
    loop
        invariant
            orig == ready_pairs(old(unequals)@, available@),
            ready_pairs(unequals@, available@).0 == orig.0,
            result@ + ready_pairs(unequals@, available@).1 == orig.1,
        decreases unequals@.len(),
    {
        match find_ready_pair(unequals, available) {
            Some(index) => {
                let pair = unequals[index];
                result.push(pair);
                unequals.swap_remove(index);
                proof {
                    assert(result@ + ready_pairs(unequals@, available@).1 =~= orig.1);
                }
            },
            None => {
                proof {
                    assert(ready_pairs(unequals@, available@) == (unequals@, Seq::<(isize, isize)>::empty()));
                    assert(result@ =~= result@ + Seq::<(isize, isize)>::empty());
                }
                return result;
            },
        }
    }
}

/// The infos keep everything that planning does not set.
pub open spec fn same_layout(a: Seq<VarInfo>, b: Seq<VarInfo>) -> bool {
    &&& a.len() == b.len()
    &&& forall|k: int|
        0 <= k < a.len() ==> {
            &&& (#[trigger] a[k]).index == b[k].index
            &&& a[k].related_with == b[k].related_with
            &&& a[k].component_range == b[k].component_range
            &&& a[k].components == b[k].components
            &&& a[k].opt_components == b[k].opt_components
        }
}

pub proof fn lemma_same_layout_input(a: Seq<VarInfo>, b: Seq<VarInfo>)
    requires
        same_layout(a, b),
    ensures
        plan_input(a) == plan_input(b),
{
    assert(plan_input(a).indices =~= plan_input(b).indices);
    assert(plan_input(a).related =~= plan_input(b).related);
    assert(plan_input(a).starts =~= plan_input(b).starts);
    assert(plan_input(a).widths =~= plan_input(b).widths);
}

fn find_ready_relation(v: &Vec<(String, isize, isize)>, avail: &Vec<isize>) -> (r: Option<usize>)
    ensures
        match r {
            Some(i) => i < v@.len() && first_where(rels_view(v@), rel_ready(avail@)) == i,
            None => first_where(rels_view(v@), rel_ready(avail@)) == -1,
        },
{
    let ghost rv = rels_view(v@);
    let mut i: usize = 0;
    while i < v.len()
        invariant
            0 <= i <= v.len(),
            rv == rels_view(v@),
            forall|j: int| 0 <= j < i ==> !rel_ready(avail@)(rv[j]),
        decreases v.len() - i,
    {
        let a = v[i].1;
        let b = v[i].2;
        if contains_var(avail, a) && contains_var(avail, b) {
            proof {
                lemma_first_where(rv, rel_ready(avail@), i as int);
            }
            return Some(i);
        }
        i += 1;
    }
    proof {
        lemma_first_where_none(rv, rel_ready(avail@));
    }
    None
}

fn find_touching_relation(v: &Vec<(String, isize, isize)>, avail: &Vec<isize>) -> (r: Option<usize>)
    ensures
        match r {
            Some(i) => i < v@.len() && first_where(rels_view(v@), rel_touches(avail@)) == i,
            None => first_where(rels_view(v@), rel_touches(avail@)) == -1,
        },
{
    let ghost rv = rels_view(v@);
    let mut i: usize = 0;
    while i < v.len()
        invariant
            0 <= i <= v.len(),
            rv == rels_view(v@),
            forall|j: int| 0 <= j < i ==> !rel_touches(avail@)(rv[j]),
        decreases v.len() - i,
    {
        let a = v[i].1;
        let b = v[i].2;
        if contains_var(avail, a) || contains_var(avail, b) {
            proof {
                lemma_first_where(rv, rel_touches(avail@), i as int);
            }
            return Some(i);
        }
        i += 1;
    }
    proof {
        lemma_first_where_none(rv, rel_touches(avail@));
    }
    None
}

fn find_ready_unrelation(v: &Vec<(String, isize, isize, usize)>, avail: &Vec<isize>) -> (r: Option<usize>)
    ensures
        match r {
            Some(i) => i < v@.len() && first_where(unrels_view(v@), unrel_ready(avail@)) == i,
            None => first_where(unrels_view(v@), unrel_ready(avail@)) == -1,
        },
{
    let ghost rv = unrels_view(v@);
    let mut i: usize = 0;
    while i < v.len()
        invariant
            0 <= i <= v.len(),
            rv == unrels_view(v@),
            forall|j: int| 0 <= j < i ==> !unrel_ready(avail@)(rv[j]),
        decreases v.len() - i,
    {
        let a = v[i].1;
        let b = v[i].2;
        if contains_var(avail, a) && contains_var(avail, b) {
            proof {
                lemma_first_where(rv, unrel_ready(avail@), i as int);
            }
            return Some(i);
        }
        i += 1;
    }
    proof {
        lemma_first_where_none(rv, unrel_ready(avail@));
    }
    None
}

pub open spec fn helper_state(infos: Seq<VarInfo>, left: Seq<(String, isize, isize)>, nr: usize) -> HelperState {
    HelperState { infos: plans_view(infos), left: rels_view(left), nr: nr as nat, ok: true }
}

/// Notes the relation from `old_var` to `new_var` as helper `nr` of `old_var`, found in column `col`.
fn note_helper(infos: &mut Vec<VarInfo>, old_var: isize, new_var: isize, col: usize, nr: usize)
    requires
        0 <= old_var < old(infos)@.len(),
        0 <= new_var < old(infos)@.len(),
        col >= old(infos)@[old_var as int].component_range.start,
    ensures
        same_layout(final(infos)@, old(infos)@),
        plans_view(final(infos)@) == add_helper(
            plans_view(old(infos)@),
            old_var,
            new_var,
            col,
            old(infos)@[old_var as int].component_range.start,
            nr as nat,
        ),
{
    let ghost before = infos@;
    let start = infos[old_var as usize].component_range.start;
    let h = RelationHelperInfo { cid_index: col - start, column_index: col, old_var, new_var, nr };
    infos[old_var as usize].relation_helpers.push(h);
    infos[new_var as usize].join_helper_index = Some(nr);
    proof {
        let pv = plans_view(before);
        let expect = add_helper(pv, old_var, new_var, col, start, nr as nat);
        assert forall|k: int| 0 <= k < infos@.len() implies #[trigger] plans_view(infos@)[k] == expect[k] by {
            if k == old_var as int || k == new_var as int {
                assert(infos@[k].unrelation_helpers == before[k].unrelation_helpers);
            } else {
                assert(infos@[k] == before[k]);
            }
        }
        assert(plans_view(infos@) =~= expect);
    }
}

/// Takes out, first found first, the relations whose variables are both bound;
/// each becomes a check with a helper on the earlier bound variable.
fn newly_available_constraints(
    infos: &mut Vec<VarInfo>,
    left: &mut Vec<(String, isize, isize)>,
    nr: &mut usize,
    available: &Vec<isize>,
) -> (r: Vec<RelationConstraint>)
    requires
        ready_relations(helper_state(old(infos)@, old(left)@, *old(nr)), available@, plan_input(old(infos)@)).0.ok,
    ensures
        same_layout(final(infos)@, old(infos)@),
        helper_state(final(infos)@, final(left)@, *final(nr)) == ready_relations(
            helper_state(old(infos)@, old(left)@, *old(nr)),
            available@,
            plan_input(old(infos)@),
        ).0,
        r@ == ready_relations(helper_state(old(infos)@, old(left)@, *old(nr)), available@, plan_input(old(infos)@)).1,
{
    let ghost inp = plan_input(infos@);
    let ghost orig = ready_relations(helper_state(infos@, left@, *nr), available@, inp);
    let mut result: Vec<RelationConstraint> = Vec::new();
    loop
        invariant
            inp == plan_input(old(infos)@),
            orig == ready_relations(helper_state(old(infos)@, old(left)@, *old(nr)), available@, inp),
            orig.0.ok,
            same_layout(infos@, old(infos)@),
            ready_relations(helper_state(infos@, left@, *nr), available@, inp).0 == orig.0,
            result@ + ready_relations(helper_state(infos@, left@, *nr), available@, inp).1 == orig.1,
        decreases left@.len(),
    {
        let ghost hs = helper_state(infos@, left@, *nr);
        proof {
            lemma_same_layout_input(infos@, old(infos)@);
        }
        match find_ready_relation(left, available) {
            Some(i) => {
                let ghost r = hs.left[i as int];
                let ty = left[i].0.clone();
                let a = left[i].1;
                let b = left[i].2;
                proof {
                    lemma_ready_relations(hs, available@, inp);
                    assert(0 <= a < infos@.len() && 0 <= b < infos@.len());
                }
                let ra = infos[a as usize].init_rank.unwrap();
                let rb = infos[b as usize].init_rank.unwrap();
                let (old_var, new_var) = if ra < rb {
                    (a, b)
                } else {
                    (b, a)
                };
                let col = column_lookup(&infos[old_var as usize].related_with, &ty, new_var).unwrap();
                result.push(RelationConstraint { helper_nr: *nr, checked_invar: Some(new_var) });
                left.swap_remove(i);
                note_helper(infos, old_var, new_var, col, *nr);
                *nr = *nr + 1;
                proof {
                    assert(rels_view(left@) =~= swap_remove(hs.left, i as int));
                    assert(result@ + ready_relations(helper_state(infos@, left@, *nr), available@, inp).1 =~= orig.1);
                }
            },
            None => {
                proof {
                    assert(ready_relations(hs, available@, inp) == (hs, Seq::<RelationConstraint>::empty()));
                    assert(result@ =~= result@ + Seq::<RelationConstraint>::empty());
                }
                return result;
            },
        }
    }
}

pub open spec fn unrel_state(infos: Seq<VarInfo>, left: Seq<(String, isize, isize, usize)>) -> UnrelState {
    UnrelState { infos: plans_view(infos), left: unrels_view(left), ok: true }
}

/// Notes the negated relation between `old_var` and `new_var` as helper `nr` of `old_var`.
fn note_unrel_helper(infos: &mut Vec<VarInfo>, old_var: isize, new_var: isize, ty: String, flip: bool, nr: usize)
    requires
        0 <= old_var < old(infos)@.len(),
        0 <= new_var < old(infos)@.len(),
    ensures
        same_layout(final(infos)@, old(infos)@),
        plans_view(final(infos)@) == add_unrel_helper(plans_view(old(infos)@), old_var, new_var, ty@, flip, nr),
{
    let ghost before = infos@;
    let ghost tyv = ty@;
    let h = UnrelationHelperInfo { ty, flip_target: flip, old_var, new_var, nr };
    infos[old_var as usize].unrelation_helpers.push(h);
    infos[new_var as usize].join_helper_index = Some(nr);
    proof {
        let pv = plans_view(before);
        let expect = add_unrel_helper(pv, old_var, new_var, tyv, flip, nr);
        assert forall|k: int| 0 <= k < infos@.len() implies #[trigger] plans_view(infos@)[k] == expect[k] by {
            if k == old_var as int {
                assert(infos@[k].unrelation_helpers@.map_values(|u: UnrelationHelperInfo| u@) =~= expect[k].unrel_helpers);
            } else if k == new_var as int {
                assert(infos@[k].unrelation_helpers == before[k].unrelation_helpers);
            } else {
                assert(infos@[k] == before[k]);
            }
        }
        assert(plans_view(infos@) =~= expect);
    }
}

/// Takes out, first found first, the negated relations whose variables are
/// both bound; each becomes a check with a helper on the earlier bound variable.
fn newly_available_unrelations(
    infos: &mut Vec<VarInfo>,
    left: &mut Vec<(String, isize, isize, usize)>,
    available: &Vec<isize>,
) -> (r: Vec<UnrelationConstraint>)
    requires
        ready_unrelations(unrel_state(old(infos)@, old(left)@), available@, plan_input(old(infos)@)).0.ok,
    ensures
        same_layout(final(infos)@, old(infos)@),
        unrel_state(final(infos)@, final(left)@) == ready_unrelations(
            unrel_state(old(infos)@, old(left)@),
            available@,
            plan_input(old(infos)@),
        ).0,
        r@ == ready_unrelations(unrel_state(old(infos)@, old(left)@), available@, plan_input(old(infos)@)).1,
{
    let ghost inp = plan_input(infos@);
    let ghost orig = ready_unrelations(unrel_state(infos@, left@), available@, inp);
    let mut result: Vec<UnrelationConstraint> = Vec::new();
    loop
        invariant
            inp == plan_input(old(infos)@),
            orig == ready_unrelations(unrel_state(old(infos)@, old(left)@), available@, inp),
            orig.0.ok,
            same_layout(infos@, old(infos)@),
            ready_unrelations(unrel_state(infos@, left@), available@, inp).0 == orig.0,
            result@ + ready_unrelations(unrel_state(infos@, left@), available@, inp).1 == orig.1,
        decreases left@.len(),
    {
        let ghost us = unrel_state(infos@, left@);
        proof {
            lemma_same_layout_input(infos@, old(infos)@);
        }
        match find_ready_unrelation(left, available) {
            Some(i) => {
                let ty = left[i].0.clone();
                let a = left[i].1;
                let b = left[i].2;
                let number = left[i].3;
                proof {
                    lemma_ready_unrelations(us, available@, inp);
                    assert(0 <= a < infos@.len() && 0 <= b < infos@.len());
                }
                let ra = infos[a as usize].init_rank.unwrap();
                let rb = infos[b as usize].init_rank.unwrap();
                let (old_var, new_var, flip) = if ra < rb {
                    (a, b, false)
                } else {
                    (b, a, true)
                };
                result.push(UnrelationConstraint { helper_nr: number, checked_invar: Some(new_var) });
                left.swap_remove(i);
                note_unrel_helper(infos, old_var, new_var, ty, flip, number);
                proof {
                    assert(unrels_view(left@) =~= swap_remove(us.left, i as int));
                    assert(result@ + ready_unrelations(unrel_state(infos@, left@), available@, inp).1 =~= orig.1);
                }
            },
            None => {
                proof {
                    assert(ready_unrelations(us, available@, inp) == (us, Seq::<UnrelationConstraint>::empty()));
                    assert(result@ =~= result@ + Seq::<UnrelationConstraint>::empty());
                }
                return result;
            },
        }
    }
}

/// Stopping is final: a plan that gets through got through every earlier state.
pub proof fn lemma_inner_joins_ok(st: PlanState, inp: PlanInput)
    ensures
        inner_joins(st, inp).0.ok ==> st.ok,
    decreases st.relations_left.len(),
{
    if st.ok && st.relations_left.len() != 0 {
        let i = first_where(st.relations_left, rel_touches(st.available));
        if 0 <= i < st.relations_left.len() && !join_fails(st, inp, i) {
            lemma_join_step(st, inp, i);
            lemma_inner_joins_ok(join_step(st, inp, i), inp);
        }
    }
}

fn clear_checked(v: &mut Vec<RelationConstraint>)
    ensures
        final(v)@ == unchecked(old(v)@),
{
    let mut k: usize = 0;
    while k < v.len()
        invariant
            0 <= k <= v@.len(),
            v@.len() == old(v)@.len(),
            forall|j: int| 0 <= j < k ==> v@[j] == (RelationConstraint { checked_invar: None, ..old(v)@[j] }),
            forall|j: int| k <= j < v@.len() ==> v@[j] == old(v)@[j],
        decreases v@.len() - k,
    {
        let c = v[k];
        v.set(k, RelationConstraint { helper_nr: c.helper_nr, checked_invar: None });
        k += 1;
    }
    proof {
        assert(v@ =~= unchecked(old(v)@));
    }
}

fn clear_checked_un(v: &mut Vec<UnrelationConstraint>)
    ensures
        final(v)@ == unchecked_un(old(v)@),
{
    let mut k: usize = 0;
    while k < v.len()
        invariant
            0 <= k <= v@.len(),
            v@.len() == old(v)@.len(),
            forall|j: int| 0 <= j < k ==> v@[j] == (UnrelationConstraint { checked_invar: None, ..old(v)@[j] }),
            forall|j: int| k <= j < v@.len() ==> v@[j] == old(v)@[j],
        decreases v@.len() - k,
    {
        let c = v[k];
        v.set(k, UnrelationConstraint { helper_nr: c.helper_nr, checked_invar: None });
        k += 1;
    }
    proof {
        assert(v@ =~= unchecked_un(old(v)@));
    }
}

impl JoinOrderComputer {
    /// Joins while some relation left has a bound variable; true when none is left.
    fn compute_inner_joins(&mut self, infos: &mut Vec<VarInfo>) -> (done: bool)
        requires
            inner_joins(state_view(*old(self), old(infos)@), plan_input(old(infos)@)).0.ok,
        ensures
            same_layout(final(infos)@, old(infos)@),
            (state_view(*final(self), final(infos)@), done) == inner_joins(
                state_view(*old(self), old(infos)@),
                plan_input(old(infos)@),
            ),
    {
        let ghost inp = plan_input(infos@);
        let ghost orig = inner_joins(state_view(*self, infos@), inp);
        loop
            invariant
                inp == plan_input(old(infos)@),
                orig == inner_joins(state_view(*old(self), old(infos)@), inp),
                orig.0.ok,
                same_layout(infos@, old(infos)@),
                inner_joins(state_view(*self, infos@), inp) == orig,
            decreases self.relations_left@.len(),
        {
            let ghost cur = state_view(*self, infos@);
            proof {
                lemma_same_layout_input(infos@, old(infos)@);
                lemma_inner_joins_ok(cur, inp);
            }
            if self.relations_left.len() == 0 {
                return true;
            }
            match find_touching_relation(&self.relations_left, &self.available) {
                None => {
                    return false;
                },
                Some(i) => {
                    proof {
                        assert(!join_fails(cur, inp, i as int));
                        lemma_join_step(cur, inp, i as int);
                        lemma_inner_joins_ok(join_step(cur, inp, i as int), inp);
                    }
                    let join = self.relations_left.remove(i);
                    let reversed = contains_var(&self.available, join.2);
                    let old_var = if reversed {
                        join.2
                    } else {
                        join.1
                    };
                    let new_var = if reversed {
                        join.1
                    } else {
                        join.2
                    };
                    let col = column_lookup(&infos[old_var as usize].related_with, &join.0, new_var).unwrap();
                    note_helper(infos, old_var, new_var, col, self.relation_helper_nr);
                    infos[new_var as usize].init_rank = Some(self.init_rank);
                    self.init_rank = self.init_rank + 1;
                    self.relation_helper_nr = self.relation_helper_nr + 1;
                    self.available.push(new_var);
                    let ghost st1 = state_view(*self, infos@);
                    proof {
                        let expect = bind_step(cur, inp, i as int);
                        assert(st1.infos =~= expect.infos);
                        assert(st1.relations_left =~= expect.relations_left);
                        assert(st1 == expect);
                    }
                    let unequal_constraints = newly_available_unequals(&mut self.unequals, &self.available);
                    let ghost st2 = state_view(*self, infos@);
                    proof {
                        assert(st2 == take_unequals(st1).0);
                        assert(inner_joins(cur, inp) == inner_joins(join_step(cur, inp, i as int), inp));
                        assert(join_step(cur, inp, i as int).ok);
                        assert(join_step(cur, inp, i as int) == checks_step(st1, inp, new_var));
                        lemma_take_unrelations(take_constraints(st2, inp).0, inp);
                        assert(take_constraints(st2, inp).0.ok);
                        assert(helper_state(infos@, self.relations_left@, self.relation_helper_nr) == (HelperState {
                            infos: st2.infos,
                            left: st2.relations_left,
                            nr: st2.helper_nr,
                            ok: st2.ok,
                        }));
                        lemma_same_layout_input(infos@, old(infos)@);
                    }
                    let mut rel_constraints = newly_available_constraints(
                        infos,
                        &mut self.relations_left,
                        &mut self.relation_helper_nr,
                        &self.available,
                    );
                    let ghost st3 = state_view(*self, infos@);
                    proof {
                        lemma_same_layout_input(infos@, old(infos)@);
                        assert(st3 == take_constraints(st2, inp).0);
                    }
                    let mut unrel_constraints = newly_available_unrelations(
                        infos,
                        &mut self.unrelations_left,
                        &self.available,
                    );
                    let ghost st4 = state_view(*self, infos@);
                    proof {
                        lemma_same_layout_input(infos@, old(infos)@);
                        assert(st4 == take_unrelations(st3, inp).0);
                    }
                    clear_checked(&mut rel_constraints);
                    clear_checked_un(&mut unrel_constraints);
                    self.result.push(
                        JoinKind::InnerJoin(
                            NewJoin { new: new_var, unequal_constraints, rel_constraints, unrel_constraints },
                        ),
                    );
                    proof {
                        lemma_same_layout_input(infos@, old(infos)@);
                        let expect = join_step(cur, inp, i as int);
                        assert(state_view(*self, infos@).result =~= expect.result);
                        assert(state_view(*self, infos@) == expect);
                    }
                },
            }
        }
    }
}

/// The relations between two variables.
fn filter_relations(relations: &[(String, isize, isize)]) -> (r: Vec<(String, isize, isize)>)
    ensures
        rels_view(r@) == non_any_rels(rels_view(relations@)),
{
    let ghost rv = rels_view(relations@);
    let mut r: Vec<(String, isize, isize)> = Vec::new();
    let mut j: usize = 0;
    while j < relations.len()
        invariant
            0 <= j <= relations@.len(),
            rv == rels_view(relations@),
            rels_view(r@) == non_any_rels(rv.take(j as int)),
        decreases relations@.len() - j,
    {
        proof {
            assert(rv.take(j + 1).drop_last() =~= rv.take(j as int));
            assert(rv.take(j + 1).last() == rv[j as int]);
        }
        let (ty, from, to) = &relations[j];
        if *from != ANYVAR && *to != ANYVAR {
            r.push((ty.clone(), *from, *to));
            proof {
                assert(rels_view(r@) =~= non_any_rels(rv.take(j + 1)));
            }
        }
        j += 1;
    }
    proof {
        assert(rv.take(j as int) =~= rv);
    }
    r
}

/// The negated relations between two variables.
fn filter_unrelations(unrelations: &[(String, isize, isize, usize)]) -> (r: Vec<(String, isize, isize, usize)>)
    ensures
        unrels_view(r@) == non_any_unrels(unrels_view(unrelations@)),
{
    let ghost rv = unrels_view(unrelations@);
    let mut r: Vec<(String, isize, isize, usize)> = Vec::new();
    let mut j: usize = 0;
    while j < unrelations.len()
        invariant
            0 <= j <= unrelations@.len(),
            rv == unrels_view(unrelations@),
            unrels_view(r@) == non_any_unrels(rv.take(j as int)),
        decreases unrelations@.len() - j,
    {
        proof {
            assert(rv.take(j + 1).drop_last() =~= rv.take(j as int));
            assert(rv.take(j + 1).last() == rv[j as int]);
        }
        let (ty, from, to, nr) = &unrelations[j];
        if *from != ANYVAR && *to != ANYVAR {
            r.push((ty.clone(), *from, *to, *nr));
            proof {
                assert(unrels_view(r@) =~= non_any_unrels(rv.take(j + 1)));
            }
        }
        j += 1;
    }
    proof {
        assert(rv.take(j as int) =~= rv);
    }
    r
}

fn copy_pairs(v: &[(isize, isize)]) -> (r: Vec<(isize, isize)>)
    ensures
        r@ == v@,
{
    let mut r: Vec<(isize, isize)> = Vec::new();
    let mut j: usize = 0;
    while j < v.len()
        invariant
            0 <= j <= v@.len(),
            r@ == v@.take(j as int),
        decreases v@.len() - j,
    {
        r.push(v[j]);
        j += 1;
        proof {
            assert(r@ =~= v@.take(j as int));
        }
    }
    proof {
        assert(v@.take(j as int) =~= v@);
    }
    r
}

/// The variables bound from outside.
pub open spec fn prefill_keys(prefills: Seq<(isize, String)>) -> Seq<isize> {
    prefills.map_values(|p: (isize, String)| p.0)
}

pub(crate) fn has_key(prefills: &[(isize, String)], k: isize) -> (r: bool)
    ensures
        r == prefill_keys(prefills@).contains(k),
{
    let mut i: usize = 0;
    while i < prefills.len()
        invariant
            0 <= i <= prefills@.len(),
            forall|j: int| 0 <= j < i ==> prefills@[j].0 != k,
        decreases prefills@.len() - i,
    {
        if prefills[i].0 == k {
            proof {
                assert(prefill_keys(prefills@)[i as int] == k);
            }
            return true;
        }
        i += 1;
    }
    false
}

/// Only one info is the last with the most component ids.
pub proof fn lemma_pick_unique(st: PlanState, inp: PlanInput, k: int)
    requires
        is_pick(st, inp, k),
    ensures
        pick(st, inp) == k,
{
    let c = choose|c: int| is_pick(st, inp, c);
    if c < k {
        assert(inp.widths[k] < inp.widths[c]);
    } else if c > k {
        assert(inp.widths[c] < inp.widths[k]);
    }
}

/// What a plan that gets through went through.
pub proof fn lemma_plan_ok(
    inp: PlanInput,
    infos: Seq<InfoPlan>,
    pk: Seq<isize>,
    rels: Seq<(Seq<char>, isize, isize)>,
    unequals: Seq<(isize, isize)>,
    unrels: Seq<(Seq<char>, isize, isize, usize)>,
)
    requires
        plan(inp, infos, pk, rels, unequals, unrels).ok,
    ensures
        ({
            let st1 = invar_phase(start_state(infos, rels, unequals, unrels), inp, pk);
            let (st2, d1) = inner_joins(st1, inp);
            let n = infos.len();
            &&& st1.ok
            &&& st2.ok
            &&& (d1 && st2.available.len() == n) ==> plan(inp, infos, pk, rels, unequals, unrels) == st2
            &&& !(d1 && st2.available.len() == n) ==> {
                &&& init_var_step(st2, inp).ok
                &&& inner_joins(init_var_step(st2, inp), inp).0.ok
                &&& inner_joins(init_var_step(st2, inp), inp).1
                &&& inner_joins(init_var_step(st2, inp), inp).0.available.len() == n
                &&& plan(inp, infos, pk, rels, unequals, unrels) == inner_joins(init_var_step(st2, inp), inp).0
            }
        }),
{
    let st1 = invar_phase(start_state(infos, rels, unequals, unrels), inp, pk);
    lemma_inner_joins_ok(st1, inp);
    let (st2, d1) = inner_joins(st1, inp);
    lemma_inner_joins_ok(init_var_step(st2, inp), inp);
}

impl JoinOrderComputer {
    /// The planner before its first step: the relations and negated relations
    /// between two variables, and the unequalities, all still to place.
    fn new(
        relations: &[(String, isize, isize)],
        unequals: &[(isize, isize)],
        unrelations: &[(String, isize, isize, usize)],
    ) -> (c: Self)
        ensures
            rels_view(c.relations_left@) == non_any_rels(rels_view(relations@)),
            c.unequals@ == unequals@,
            unrels_view(c.unrelations_left@) == non_any_unrels(unrels_view(unrelations@)),
            c.available@.len() == 0,
            c.result@.len() == 0,
            c.init_rank == 0,
            c.relation_helper_nr == 0,
    {
        JoinOrderComputer {
            relations_left: filter_relations(relations),
            unequals: copy_pairs(unequals),
            unrelations_left: filter_unrelations(unrelations),
            available: Vec::new(),
            result: Vec::new(),
            init_rank: 0,
            relation_helper_nr: 0,
        }
    }

    /// The first variable to bind when the relations bind no more.
    fn pick_first(&self, infos: &Vec<VarInfo>) -> (r: Option<usize>)
        ensures
            match r {
                Some(k) => is_pick(state_view(*self, infos@), plan_input(infos@), k as int),
                None => forall|k: int| !is_pick(state_view(*self, infos@), plan_input(infos@), k),
            },
    {
        let ghost st = state_view(*self, infos@);
        let ghost inp = plan_input(infos@);
        let mut best: Option<usize> = None;
        let mut best_w: usize = 0;
        let mut k: usize = 0;
        while k < infos.len()
            invariant
                0 <= k <= infos@.len(),
                st == state_view(*self, infos@),
                inp == plan_input(infos@),
                inp.indices.len() == infos@.len(),
                match best {
                    None => forall|j: int| 0 <= j < k ==> st.available.contains(#[trigger] inp.indices[j]),
                    Some(b) => {
                        &&& b < k
                        &&& !st.available.contains(inp.indices[b as int])
                        &&& best_w == inp.widths[b as int]
                        &&& forall|j: int|
                            0 <= j < k && !st.available.contains(#[trigger] inp.indices[j]) ==> inp.widths[j]
                                <= inp.widths[b as int]
                        &&& forall|j: int|
                            b < j < k && !st.available.contains(#[trigger] inp.indices[j]) ==> inp.widths[j]
                                < inp.widths[b as int]
                    },
                },
            decreases infos@.len() - k,
        {
            if !contains_var(&self.available, infos[k].index) {
                let r = &infos[k].component_range;
                let w: usize = if r.end >= r.start {
                    r.end - r.start
                } else {
                    0
                };
                proof {
                    assert(inp.widths[k as int] == w);
                }
                match best {
                    None => {
                        best = Some(k);
                        best_w = w;
                    },
                    Some(_) => {
                        if w >= best_w {
                            best = Some(k);
                            best_w = w;
                        }
                    },
                }
            }
            k += 1;
        }
        proof {
            match best {
                None => {
                    assert forall|c: int| !is_pick(st, inp, c) by {
                        if 0 <= c < inp.indices.len() {
                            assert(st.available.contains(inp.indices[c]));
                        }
                    }
                },
                Some(b) => {},
            }
        }
        best
    }

    /// The variables bound from outside come first, in ascending order, with
    /// the checks among them.
    fn start_with_prefills(&mut self, infos: &mut Vec<VarInfo>, prefills: &[(isize, String)])
        requires
            prefills@.len() > 0,
            old(infos)@.len() <= isize::MAX,
            old(self).available@.len() == 0,
            old(self).init_rank == 0,
            invar_phase(state_view(*old(self), old(infos)@), plan_input(old(infos)@), prefill_keys(prefills@)).ok,
        ensures
            same_layout(final(infos)@, old(infos)@),
            state_view(*final(self), final(infos)@) == invar_phase(
                state_view(*old(self), old(infos)@),
                plan_input(old(infos)@),
                prefill_keys(prefills@),
            ),
    {
        let ghost st0 = state_view(*self, infos@);
        let ghost inp = plan_input(infos@);
        let ghost pk = prefill_keys(prefills@);
        let n = infos.len();
        let mut v: usize = 0;
        while v < n
            invariant
                0 <= v <= n,
                n == infos@.len(),
                n <= isize::MAX,
                self.available@ == keys_below(pk, v as int),
                pk == prefill_keys(prefills@),
                state_view(*self, infos@) == (PlanState { available: self.available@, ..st0 }),
            decreases n - v,
        {
            if has_key(prefills, v as isize) {
                self.available.push(v as isize);
            }
            v += 1;
        }
        let ghost keys = self.available@;
        proof {
            assert(keys == keys_below(pk, n as int));
            assert(keys.len() <= u32::MAX);
            assert forall|j: int| 0 <= j < keys.len() implies 0 <= #[trigger] keys[j] < n by {
                lemma_keys_below(pk, n as int, j);
            }
        }
        let mut j: usize = 0;
        while j < self.available.len()
            invariant
                0 <= j <= keys.len(),
                self.available@ == keys,
                keys.len() <= u32::MAX,
                n == old(infos)@.len(),
                forall|i: int| 0 <= i < keys.len() ==> 0 <= #[trigger] keys[i] < n,
                self.init_rank == j,
                same_layout(infos@, old(infos)@),
                plans_view(infos@) == assign_ranks(st0.infos, keys.take(j as int)),
                state_view(*self, infos@) == (PlanState {
                    available: keys,
                    infos: plans_view(infos@),
                    init_rank: j as nat,
                    ..st0
                }),
            decreases keys.len() - j,
        {
            let var = self.available[j];
            let ghost before = infos@;
            infos[var as usize].init_rank = Some(self.init_rank);
            self.init_rank = self.init_rank + 1;
            j += 1;
            proof {
                assert(keys.take(j as int).drop_last() =~= keys.take(j - 1));
                assert(keys.take(j as int).last() == var);
                let prev = assign_ranks(st0.infos, keys.take(j - 1));
                assert forall|k: int| 0 <= k < infos@.len() implies #[trigger] plans_view(infos@)[k]
                    == assign_ranks(st0.infos, keys.take(j as int))[k] by {
                    if k != var as int {
                        assert(infos@[k] == before[k]);
                    }
                }
                assert(plans_view(infos@) =~= assign_ranks(st0.infos, keys.take(j as int)));
            }
        }
        proof {
            assert(keys.take(j as int) =~= keys);
            lemma_same_layout_input(infos@, old(infos)@);
            lemma_take_constraints(take_unequals(state_view(*self, infos@)).0, inp);
            lemma_take_unrelations(take_constraints(take_unequals(state_view(*self, infos@)).0, inp).0, inp);
        }
        let ghost sa = state_view(*self, infos@);
        let invar_unequals = newly_available_unequals(&mut self.unequals, &self.available);
        let ghost sb = state_view(*self, infos@);
        proof {
            assert(sb == take_unequals(sa).0);
            assert(helper_state(infos@, self.relations_left@, self.relation_helper_nr) == (HelperState {
                infos: sb.infos,
                left: sb.relations_left,
                nr: sb.helper_nr,
                ok: sb.ok,
            }));
        }
        let invar_rel_constraints = newly_available_constraints(
            infos,
            &mut self.relations_left,
            &mut self.relation_helper_nr,
            &self.available,
        );
        let ghost sc = state_view(*self, infos@);
        proof {
            lemma_same_layout_input(infos@, old(infos)@);
            assert(sc == take_constraints(sb, inp).0);
        }
        let invar_unrel_constraints = newly_available_unrelations(infos, &mut self.unrelations_left, &self.available);
        proof {
            lemma_same_layout_input(infos@, old(infos)@);
            assert(state_view(*self, infos@) == take_unrelations(sc, inp).0);
        }
        self.result.push(
            JoinKind::InitInvars(InitInvars { invar_unequals, invar_rel_constraints, invar_unrel_constraints }),
        );
        proof {
            assert(state_view(*self, infos@).result =~= invar_phase(st0, inp, pk).result);
        }
    }
}

/// Every key that `keys_below` lists is below its bound.
pub(crate) proof fn lemma_keys_below(pk: Seq<isize>, m: int, j: int)
    requires
        0 <= j < keys_below(pk, m).len(),
        m <= isize::MAX,
    ensures
        0 <= keys_below(pk, m)[j] < m,
    decreases m,
{
    if m > 0 {
        if j < keys_below(pk, m - 1).len() {
            lemma_keys_below(pk, m - 1, j);
        }
    }
}

/// The plan of the query: in which order its variables are bound and where
/// each check is placed; the variable infos get their ranks and helpers.
pub fn compute_join_order(
    relations: &[(String, isize, isize)],
    infos: &mut Vec<VarInfo>,
    prefills: &[(isize, String)],
    unequals: &[(isize, isize)],
    unrelations: &[(String, isize, isize, usize)],
) -> (r: Vec<JoinKind>)
    requires
        old(infos)@.len() <= isize::MAX,
        plan(
            plan_input(old(infos)@),
            plans_view(old(infos)@),
            prefill_keys(prefills@),
            rels_view(relations@),
            unequals@,
            unrels_view(unrelations@),
        ).ok,
    ensures
        same_layout(final(infos)@, old(infos)@),
        results_view(r@) == plan(
            plan_input(old(infos)@),
            plans_view(old(infos)@),
            prefill_keys(prefills@),
            rels_view(relations@),
            unequals@,
            unrels_view(unrelations@),
        ).result,
        plans_view(final(infos)@) == plan(
            plan_input(old(infos)@),
            plans_view(old(infos)@),
            prefill_keys(prefills@),
            rels_view(relations@),
            unequals@,
            unrels_view(unrelations@),
        ).infos,
{
    let ghost inp = plan_input(infos@);
    let ghost pv0 = plans_view(infos@);
    let ghost pk = prefill_keys(prefills@);
    let ghost rv = rels_view(relations@);
    let ghost urv = unrels_view(unrelations@);
    proof {
        lemma_plan_ok(inp, pv0, pk, rv, unequals@, urv);
    }
    let mut c = JoinOrderComputer::new(relations, unequals, unrelations);
    let ghost st0 = start_state(pv0, rv, unequals@, urv);
    proof {
        assert(state_view(c, infos@).result =~= st0.result);
        assert(state_view(c, infos@).available =~= st0.available);
        assert(state_view(c, infos@) == st0);
    }
    if prefills.len() > 0 {
        c.start_with_prefills(infos, prefills);
        proof {
            lemma_same_layout_input(infos@, old(infos)@);
        }
    }
    let ghost st1 = invar_phase(st0, inp, pk);
    proof {
        assert(state_view(c, infos@) == st1);
    }
    let d1 = c.compute_inner_joins(infos);
    proof {
        lemma_same_layout_input(infos@, old(infos)@);
    }
    if !(d1 && c.available.len() == infos.len()) {
        let ghost st2 = state_view(c, infos@);
        let k = match c.pick_first(infos) {
            Some(k) => k,
            None => {
                proof {
                    assert(pick(st2, inp) == -1);
                }
                return c.result;
            },
        };
        proof {
            lemma_pick_unique(st2, inp, k as int);
        }
        let index = infos[k].index;
        let ghost before = infos@;
        infos[k].init_rank = Some(c.init_rank);
        c.init_rank = c.init_rank + 1;
        c.available.push(index);
        c.result.push(JoinKind::InitVar(index));
        proof {
            let expect = init_var_step(st2, inp);
            assert forall|j: int| 0 <= j < infos@.len() implies #[trigger] plans_view(infos@)[j] == expect.infos[j] by {
                if j != k as int {
                    assert(infos@[j] == before[j]);
                }
            }
            assert(plans_view(infos@) =~= expect.infos);
            assert(state_view(c, infos@).result =~= expect.result);
            assert(same_layout(infos@, old(infos)@));
            lemma_same_layout_input(infos@, old(infos)@);
            assert(state_view(c, infos@) == expect);
        }
        let d2 = c.compute_inner_joins(infos);
    }
    c.result
}

/// The variables that the steps bind, in order: those bound from outside with
/// the first step, then one per step.
pub open spec fn bound_by(result: Seq<JoinKindView>, keys: Seq<isize>) -> Seq<isize>
    decreases result.len(),
{
    if result.len() == 0 {
        Seq::empty()
    } else {
        bound_by(result.drop_last(), keys) + match result.last() {
            JoinKindView::InitInvars(_, _, _) => keys,
            JoinKindView::InitVar(v) => seq![v],
            JoinKindView::InnerJoin(v, _, _, _) => seq![v],
        }
    }
}

/// The ranks of the infos agree.
pub open spec fn same_ranks(a: Seq<InfoPlan>, b: Seq<InfoPlan>) -> bool {
    a.len() == b.len() && forall|v: int| 0 <= v < a.len() ==> (#[trigger] a[v]).rank == b[v].rank
}

/// The planner so far: the next rank is the number of variables bound, every
/// ranked variable was bound at its rank, the bound variables are variables,
/// and they are those that the steps so far bound.
pub open spec fn binds_in_order(st: PlanState, keys: Seq<isize>) -> bool {
    &&& ranks_ok(st)
    &&& st.available == bound_by(st.result, keys)
}

/// The next rank is the number of variables bound, every ranked variable was
/// bound at its rank, and the bound variables are variables.
pub open spec fn ranks_ok(st: PlanState) -> bool {
    &&& st.init_rank == st.available.len()
    &&& forall|v: int|
        0 <= v < st.infos.len() && (#[trigger] st.infos[v]).rank is Some ==> (st.infos[v].rank.unwrap() as int)
            < st.available.len() && st.available[st.infos[v].rank.unwrap() as int] == v
    &&& forall|j: int| 0 <= j < st.available.len() ==> 0 <= #[trigger] st.available[j] < st.infos.len()
}

proof fn lemma_add_helper_ranks(infos: Seq<InfoPlan>, old: isize, new: isize, col: usize, start: usize, nr: nat)
    requires
        0 <= old < infos.len(),
        0 <= new < infos.len(),
    ensures
        same_ranks(add_helper(infos, old, new, col, start, nr), infos),
{
}

proof fn lemma_add_unrel_helper_ranks(infos: Seq<InfoPlan>, old: isize, new: isize, ty: Seq<char>, flip: bool, nr: usize)
    requires
        0 <= old < infos.len(),
        0 <= new < infos.len(),
    ensures
        same_ranks(add_unrel_helper(infos, old, new, ty, flip, nr), infos),
{
}

proof fn lemma_ready_relations_ranks(hs: HelperState, avail: Seq<isize>, inp: PlanInput)
    ensures
        same_ranks(ready_relations(hs, avail, inp).0.infos, hs.infos),
    decreases hs.left.len(),
{
    let i = first_where(hs.left, rel_ready(avail));
    if hs.ok && 0 <= i < hs.left.len() {
        let r = hs.left[i];
        if (0 <= r.1 < hs.infos.len() && 0 <= r.2 < hs.infos.len()) && hs.infos[r.1 as int].rank is Some
            && hs.infos[r.2 as int].rank is Some {
            let (old, new) = by_rank(hs.infos, r.1, r.2);
            let col = column_of(inp.related[old as int], (r.0, new));
            if !(inp.indices[old as int] != old || col is None || col.unwrap() < inp.starts[old as int]
                || hs.nr >= usize::MAX) {
                let i2 = add_helper(hs.infos, old, new, col.unwrap(), inp.starts[old as int], hs.nr);
                lemma_add_helper_ranks(hs.infos, old, new, col.unwrap(), inp.starts[old as int], hs.nr);
                let hs2 = HelperState { infos: i2, left: swap_remove(hs.left, i), nr: hs.nr + 1, ok: true };
                lemma_ready_relations_ranks(hs2, avail, inp);
            }
        }
    }
}

proof fn lemma_ready_unrelations_ranks(us: UnrelState, avail: Seq<isize>, inp: PlanInput)
    ensures
        same_ranks(ready_unrelations(us, avail, inp).0.infos, us.infos),
    decreases us.left.len(),
{
    let i = first_where(us.left, unrel_ready(avail));
    if us.ok && 0 <= i < us.left.len() {
        let r = us.left[i];
        if (0 <= r.1 < us.infos.len() && 0 <= r.2 < us.infos.len()) && us.infos[r.1 as int].rank is Some
            && us.infos[r.2 as int].rank is Some {
            let flip = !(us.infos[r.1 as int].rank.unwrap() < us.infos[r.2 as int].rank.unwrap());
            let (old, new) = by_rank(us.infos, r.1, r.2);
            if inp.indices[old as int] == old {
                let i3 = add_unrel_helper(us.infos, old, new, r.0, flip, r.3);
                lemma_add_unrel_helper_ranks(us.infos, old, new, r.0, flip, r.3);
                lemma_ready_unrelations_ranks(UnrelState { infos: i3, left: swap_remove(us.left, i), ok: true }, avail, inp);
            }
        }
    }
}

/// Placing checks binds nothing and ranks nothing.
proof fn lemma_checks_keep_order(st: PlanState, inp: PlanInput)
    requires
        ranks_ok(st),
    ensures
        ranks_ok(take_unequals(st).0),
        ranks_ok(take_constraints(st, inp).0),
        ranks_ok(take_unrelations(st, inp).0),
        take_constraints(st, inp).0.infos.len() == st.infos.len(),
        take_unrelations(st, inp).0.infos.len() == st.infos.len(),
{
    lemma_ready_relations_ranks(
        HelperState { infos: st.infos, left: st.relations_left, nr: st.helper_nr, ok: st.ok },
        st.available,
        inp,
    );
    lemma_ready_unrelations_ranks(UnrelState { infos: st.infos, left: st.unrelations_left, ok: st.ok }, st.available, inp);
    let a = take_constraints(st, inp).0;
    assert forall|v: int| 0 <= v < a.infos.len() && (#[trigger] a.infos[v]).rank is Some implies (
    a.infos[v].rank.unwrap() as int) < a.available.len() && a.available[a.infos[v].rank.unwrap() as int] == v by {
        assert(a.infos[v].rank == st.infos[v].rank);
    }
    let b = take_unrelations(st, inp).0;
    assert forall|v: int| 0 <= v < b.infos.len() && (#[trigger] b.infos[v]).rank is Some implies (
    b.infos[v].rank.unwrap() as int) < b.available.len() && b.available[b.infos[v].rank.unwrap() as int] == v by {
        assert(b.infos[v].rank == st.infos[v].rank);
    }
}

/// A join binds one variable more, as its step says.
proof fn lemma_join_keeps_order(st: PlanState, inp: PlanInput, i: int, keys: Seq<isize>)
    requires
        binds_in_order(st, keys),
        0 <= i < st.relations_left.len(),
        !join_fails(st, inp, i),
    ensures
        binds_in_order(join_step(st, inp, i), keys),
        join_step(st, inp, i).infos.len() == st.infos.len(),
{
    let join = st.relations_left[i];
    let (old, new) = join_ends(st, join);
    let col = column_of(inp.related[old as int], (join.0, new)).unwrap();
    lemma_add_helper_ranks(st.infos, old, new, col, inp.starts[old as int], st.helper_nr);
    let st1 = bind_step(st, inp, i);
    assert forall|v: int| 0 <= v < st1.infos.len() && (#[trigger] st1.infos[v]).rank is Some implies (
    st1.infos[v].rank.unwrap() as int) < st1.available.len() && st1.available[st1.infos[v].rank.unwrap() as int]
        == v by {
        if v != new as int {
            let i2 = add_helper(st.infos, old, new, col, inp.starts[old as int], st.helper_nr);
            assert(st1.infos[v].rank == i2[v].rank);
            assert(i2[v].rank == st.infos[v].rank);
        }
    }
    assert(ranks_ok(st1));
    lemma_checks_keep_order(st1, inp);
    let st2 = take_unequals(st1).0;
    lemma_checks_keep_order(st2, inp);
    let st3 = take_constraints(st2, inp).0;
    lemma_checks_keep_order(st3, inp);
    let st4 = take_unrelations(st3, inp).0;
    let r = join_step(st, inp, i);
    assert(r.result.drop_last() =~= st.result);
    assert(bound_by(r.result, keys) =~= st.available.push(new));
}

/// Joining binds the variables in the order of the steps.
proof fn lemma_inner_joins_keep_order(st: PlanState, inp: PlanInput, keys: Seq<isize>)
    requires
        binds_in_order(st, keys),
    ensures
        binds_in_order(inner_joins(st, inp).0, keys),
        inner_joins(st, inp).0.infos.len() == st.infos.len(),
    decreases st.relations_left.len(),
{
    if st.ok && st.relations_left.len() != 0 {
        let i = first_where(st.relations_left, rel_touches(st.available));
        if 0 <= i < st.relations_left.len() && !join_fails(st, inp, i) {
            lemma_join_step(st, inp, i);
            lemma_join_keeps_order(st, inp, i, keys);
            lemma_inner_joins_keep_order(join_step(st, inp, i), inp, keys);
        }
    }
}

/// The keys that `keys_below` lists ascend.
proof fn lemma_keys_below_ascend(pk: Seq<isize>, m: int, i: int, j: int)
    requires
        0 <= i < j < keys_below(pk, m).len(),
        m <= isize::MAX,
    ensures
        keys_below(pk, m)[i] < keys_below(pk, m)[j],
    decreases m,
{
    if m > 0 {
        let prev = keys_below(pk, m - 1);
        if j < prev.len() {
            lemma_keys_below_ascend(pk, m - 1, i, j);
        } else {
            lemma_keys_below(pk, m - 1, i);
        }
    }
}

/// The ranks that `assign_ranks` gives: each key its place among the keys.
proof fn lemma_assign_ranks(infos: Seq<InfoPlan>, keys: Seq<isize>)
    requires
        keys.len() <= u32::MAX,
        forall|j: int| 0 <= j < keys.len() ==> 0 <= #[trigger] keys[j] < infos.len(),
        forall|i: int, j: int| 0 <= i < j < keys.len() ==> keys[i] != keys[j],
    ensures
        assign_ranks(infos, keys).len() == infos.len(),
        forall|j: int| 0 <= j < keys.len() ==> assign_ranks(infos, keys)[#[trigger] keys[j] as int].rank == Some(j as u32),
        forall|v: int| 0 <= v < infos.len() && !keys.contains(v as isize) ==> (#[trigger] assign_ranks(infos, keys)[v]).rank
            == infos[v].rank,
    decreases keys.len(),
{
    if keys.len() > 0 {
        let prev = keys.drop_last();
        lemma_assign_ranks(infos, prev);
        assert forall|j: int| 0 <= j < keys.len() implies assign_ranks(infos, keys)[#[trigger] keys[j] as int].rank == Some(j as u32) by {
            if j < keys.len() - 1 {
                assert(keys[j] != keys.last());
                assert(prev[j] == keys[j]);
            }
        }
        assert forall|v: int| 0 <= v < infos.len() && !keys.contains(v as isize) implies (#[trigger] assign_ranks(infos, keys)[v]).rank
            == infos[v].rank by {
            if prev.contains(v as isize) {
                let j = choose|j: int| 0 <= j < prev.len() && prev[j] == v as isize;
                assert(keys[j] == v as isize);
            }
            assert(keys.last() != v as isize);
        }
    }
}

/// Every rank is still open.
pub open spec fn unranked(infos: Seq<InfoPlan>) -> bool {
    forall|v: int| 0 <= v < infos.len() ==> (#[trigger] infos[v]).rank is None
}

/// The variables bound from outside are bound first, in ascending order.
proof fn lemma_invar_phase_order(st0: PlanState, inp: PlanInput, pk: Seq<isize>)
    requires
        unranked(st0.infos),
        st0.available.len() == 0,
        st0.result.len() == 0,
        st0.init_rank == 0,
        st0.infos.len() <= isize::MAX,
    ensures
        binds_in_order(invar_phase(st0, inp, pk), keys_below(pk, st0.infos.len() as int)),
        invar_phase(st0, inp, pk).infos.len() == st0.infos.len(),
{
    let n = st0.infos.len() as int;
    let keys = keys_below(pk, n);
    assert(bound_by(st0.result, keys) =~= st0.available);
    if pk.len() != 0 && !((exists|j: int| 0 <= j < pk.len() && !(0 <= #[trigger] pk[j] < n)) || keys.len() > u32::MAX) {
        assert forall|j: int| 0 <= j < keys.len() implies 0 <= #[trigger] keys[j] < n by {
            lemma_keys_below(pk, n, j);
        }
        assert forall|i: int, j: int| 0 <= i < j < keys.len() implies keys[i] != keys[j] by {
            lemma_keys_below_ascend(pk, n, i, j);
        }
        lemma_assign_ranks(st0.infos, keys);
        let sa = PlanState { available: keys, infos: assign_ranks(st0.infos, keys), init_rank: keys.len(), ..st0 };
        assert forall|v: int| 0 <= v < sa.infos.len() && (#[trigger] sa.infos[v]).rank is Some implies (
        sa.infos[v].rank.unwrap() as int) < sa.available.len() && sa.available[sa.infos[v].rank.unwrap() as int] == v by {
            if keys.contains(v as isize) {
                let j = choose|j: int| 0 <= j < keys.len() && keys[j] == v as isize;
                assert(sa.infos[keys[j] as int].rank == Some(j as u32));
            }
        }
        assert(ranks_ok(sa));
        lemma_checks_keep_order(sa, inp);
        let sb = take_unequals(sa).0;
        lemma_checks_keep_order(sb, inp);
        let sc = take_constraints(sb, inp).0;
        lemma_checks_keep_order(sc, inp);
        let r = invar_phase(st0, inp, pk);
        assert(r.result.drop_last() =~= st0.result);
        assert(bound_by(r.result, keys) =~= keys);
    }
}

/// Starting from the picked variable binds it, as its step says.
proof fn lemma_init_var_order(st: PlanState, inp: PlanInput, keys: Seq<isize>)
    requires
        binds_in_order(st, keys),
        inp.indices.len() == st.infos.len(),
        forall|k: int| 0 <= k < inp.indices.len() ==> inp.indices[k] == k,
    ensures
        binds_in_order(init_var_step(st, inp), keys),
        init_var_step(st, inp).infos.len() == st.infos.len(),
{
    let k = pick(st, inp);
    if !(k < 0 || st.init_rank >= u32::MAX) {
        let r = init_var_step(st, inp);
        assert(is_pick(st, inp, k));
        assert forall|v: int| 0 <= v < r.infos.len() && (#[trigger] r.infos[v]).rank is Some implies (
        r.infos[v].rank.unwrap() as int) < r.available.len() && r.available[r.infos[v].rank.unwrap() as int] == v by {
            if v != k {
                assert(r.infos[v].rank == st.infos[v].rank);
            }
        }
        assert(r.result.drop_last() =~= st.result);
        assert(bound_by(r.result, keys) =~= st.available.push(inp.indices[k]));
    }
}

/// A sequence of `n` numbers that holds every number below `n` holds each once.
proof fn lemma_covering_no_duplicates(s: Seq<isize>, n: int)
    requires
        s.len() == n,
        n <= isize::MAX,
        forall|v: isize| 0 <= v < n ==> #[trigger] s.contains(v),
        forall|j: int| 0 <= j < s.len() ==> 0 <= #[trigger] s[j] < n,
    ensures
        s.no_duplicates(),
{
    let t = s.map_values(|x: isize| x as int);
    vstd::set_lib::lemma_int_range(0, n);
    assert forall|v: int| #[trigger] vstd::set_lib::set_int_range(0, n).contains(v) implies t.to_set().contains(v) by {
        assert(s.contains(v as isize));
        let j = choose|j: int| 0 <= j < s.len() && s[j] == v as isize;
        assert(t[j] == v);
    }
    vstd::seq_lib::seq_to_set_is_finite(t);
    vstd::set_lib::lemma_len_subset(vstd::set_lib::set_int_range(0, n), t.to_set());
    t.lemma_cardinality_of_set();
    t.lemma_no_dup_set_cardinality();
    assert forall|i: int, j: int| 0 <= i < s.len() && 0 <= j < s.len() && i != j implies s[i] != s[j] by {
        assert(t[i] != t[j]);
    }
}

/// A plan that gets through binds every variable exactly once: those bound
/// from outside first, in ascending order, then one per step, in the order of
/// the steps; and each variable's rank is its place in that order.
pub proof fn lemma_plan_binds_each_var_once(
    inp: PlanInput,
    infos: Seq<InfoPlan>,
    pk: Seq<isize>,
    rels: Seq<(Seq<char>, isize, isize)>,
    unequals: Seq<(isize, isize)>,
    unrels: Seq<(Seq<char>, isize, isize, usize)>,
)
    requires
        plan(inp, infos, pk, rels, unequals, unrels).ok,
        infos.len() <= isize::MAX,
        inp.indices.len() == infos.len(),
        forall|k: int| 0 <= k < inp.indices.len() ==> inp.indices[k] == k,
        unranked(infos),
    ensures
        ({
            let st = plan(inp, infos, pk, rels, unequals, unrels);
            let n = infos.len() as int;
            &&& st.available.len() == n
            &&& st.available.no_duplicates()
            &&& forall|j: int| 0 <= j < n ==> 0 <= #[trigger] st.available[j] < n
            &&& forall|v: isize| 0 <= v < n ==> #[trigger] st.available.contains(v)
            &&& st.available == bound_by(st.result, keys_below(pk, n))
            &&& forall|v: int|
                0 <= v < n ==> (#[trigger] st.infos[v]).rank is Some && st.available[st.infos[v].rank.unwrap() as int]
                    == v
        }),
{
    let n = infos.len() as int;
    let keys = keys_below(pk, n);
    let st0 = start_state(infos, rels, unequals, unrels);
    lemma_invar_phase_order(st0, inp, pk);
    let st1 = invar_phase(st0, inp, pk);
    lemma_inner_joins_keep_order(st1, inp, keys);
    let (st2, d1) = inner_joins(st1, inp);
    lemma_plan_ok(inp, infos, pk, rels, unequals, unrels);
    if !(d1 && st2.available.len() == n) {
        lemma_init_var_order(st2, inp, keys);
        lemma_inner_joins_keep_order(init_var_step(st2, inp), inp, keys);
    }
    let st = plan(inp, infos, pk, rels, unequals, unrels);
    assert(plan_complete(plan_steps(inp, infos, pk, rels, unequals, unrels), infos.len()));
    assert(st == plan_steps(inp, infos, pk, rels, unequals, unrels));
    assert forall|v: isize| 0 <= v < n implies #[trigger] st.available.contains(v) by {
        assert(st.infos[v as int].rank is Some);
        assert(st.available[st.infos[v as int].rank.unwrap() as int] == v);
    }
    lemma_covering_no_duplicates(st.available, n);
}


/// Every variable that has a join helper in `a` has one in `b`.
pub open spec fn helpers_kept(a: Seq<InfoPlan>, b: Seq<InfoPlan>) -> bool {
    &&& a.len() == b.len()
    &&& forall|v: int| 0 <= v < a.len() && (#[trigger] a[v]).join_helper is Some ==> b[v].join_helper is Some
}

/// Each variable a step binds is a variable, and one bound by following a
/// relation has the helper that follows it.
pub open spec fn joins_have_helpers(st: PlanState) -> bool {
    forall|i: int|
        0 <= i < st.result.len() ==> match #[trigger] st.result[i] {
            JoinKindView::InitVar(v) => 0 <= v < st.infos.len(),
            JoinKindView::InnerJoin(new, ..) => 0 <= new < st.infos.len() && st.infos[new as int].join_helper is Some,
            _ => true,
        }
}

proof fn lemma_joins_kept(st: PlanState, infos: Seq<InfoPlan>)
    requires
        joins_have_helpers(st),
        helpers_kept(st.infos, infos),
    ensures
        joins_have_helpers(PlanState { infos, ..st }),
{
    let r = PlanState { infos, ..st };
    assert forall|i: int| 0 <= i < r.result.len() implies match #[trigger] r.result[i] {
        JoinKindView::InitVar(v) => 0 <= v < r.infos.len(),
        JoinKindView::InnerJoin(new, ..) => 0 <= new < r.infos.len() && r.infos[new as int].join_helper is Some,
        _ => true,
    } by {
        if let JoinKindView::InnerJoin(new, ..) = st.result[i] {
            assert(st.infos[new as int].join_helper is Some);
        }
    }
}

proof fn lemma_ready_relations_helpers(hs: HelperState, avail: Seq<isize>, inp: PlanInput)
    ensures
        helpers_kept(hs.infos, ready_relations(hs, avail, inp).0.infos),
    decreases hs.left.len(),
{
    let i = first_where(hs.left, rel_ready(avail));
    if hs.ok && 0 <= i < hs.left.len() {
        let r = hs.left[i];
        if (0 <= r.1 < hs.infos.len() && 0 <= r.2 < hs.infos.len()) && hs.infos[r.1 as int].rank is Some
            && hs.infos[r.2 as int].rank is Some {
            let (old, new) = by_rank(hs.infos, r.1, r.2);
            let col = column_of(inp.related[old as int], (r.0, new));
            if !(inp.indices[old as int] != old || col is None || col.unwrap() < inp.starts[old as int]
                || hs.nr >= usize::MAX) {
                let i2 = add_helper(hs.infos, old, new, col.unwrap(), inp.starts[old as int], hs.nr);
                assert(helpers_kept(hs.infos, i2));
                let hs2 = HelperState { infos: i2, left: swap_remove(hs.left, i), nr: hs.nr + 1, ok: true };
                lemma_ready_relations_helpers(hs2, avail, inp);
            }
        }
    }
}

proof fn lemma_ready_unrelations_helpers(us: UnrelState, avail: Seq<isize>, inp: PlanInput)
    ensures
        helpers_kept(us.infos, ready_unrelations(us, avail, inp).0.infos),
    decreases us.left.len(),
{
    let i = first_where(us.left, unrel_ready(avail));
    if us.ok && 0 <= i < us.left.len() {
        let r = us.left[i];
        if (0 <= r.1 < us.infos.len() && 0 <= r.2 < us.infos.len()) && us.infos[r.1 as int].rank is Some
            && us.infos[r.2 as int].rank is Some {
            let flip = !(us.infos[r.1 as int].rank.unwrap() < us.infos[r.2 as int].rank.unwrap());
            let (old, new) = by_rank(us.infos, r.1, r.2);
            if inp.indices[old as int] == old {
                let i3 = add_unrel_helper(us.infos, old, new, r.0, flip, r.3);
                assert(helpers_kept(us.infos, i3));
                lemma_ready_unrelations_helpers(UnrelState { infos: i3, left: swap_remove(us.left, i), ok: true }, avail, inp);
            }
        }
    }
}

/// Placing checks takes no join helper away.
proof fn lemma_checks_keep_helpers(st: PlanState, inp: PlanInput)
    ensures
        take_unequals(st).0.infos == st.infos,
        take_unequals(st).0.result == st.result,
        helpers_kept(st.infos, take_constraints(st, inp).0.infos),
        take_constraints(st, inp).0.result == st.result,
        helpers_kept(st.infos, take_unrelations(st, inp).0.infos),
        take_unrelations(st, inp).0.result == st.result,
{
    lemma_ready_relations_helpers(
        HelperState { infos: st.infos, left: st.relations_left, nr: st.helper_nr, ok: st.ok },
        st.available,
        inp,
    );
    lemma_ready_unrelations_helpers(UnrelState { infos: st.infos, left: st.unrelations_left, ok: st.ok }, st.available, inp);
}

proof fn lemma_join_step_helpers(st: PlanState, inp: PlanInput, i: int)
    requires
        0 <= i < st.relations_left.len(),
        !join_fails(st, inp, i),
        joins_have_helpers(st),
    ensures
        joins_have_helpers(join_step(st, inp, i)),
{
    let new = join_ends(st, st.relations_left[i]).1;
    let st1 = bind_step(st, inp, i);
    let join = st.relations_left[i];
    let old = join_ends(st, join).0;
    let col = column_of(inp.related[old as int], (join.0, new)).unwrap();
    let i2 = add_helper(st.infos, old, new, col, inp.starts[old as int], st.helper_nr);
    assert(helpers_kept(st.infos, i2));
    assert(helpers_kept(i2, st1.infos));
    lemma_joins_kept(st, st1.infos);
    assert(st1.infos[new as int].join_helper is Some);
    lemma_checks_keep_helpers(st1, inp);
    let (st2, ue) = take_unequals(st1);
    lemma_checks_keep_helpers(st2, inp);
    let (st3, rc) = take_constraints(st2, inp);
    lemma_checks_keep_helpers(st3, inp);
    let (st4, urc) = take_unrelations(st3, inp);
    lemma_joins_kept(PlanState { infos: st1.infos, ..st1 }, st3.infos);
    lemma_joins_kept(PlanState { infos: st3.infos, ..st1 }, st4.infos);
    let r = checks_step(st1, inp, new);
    assert(r.result == st1.result.push(JoinKindView::InnerJoin(new, ue, unchecked(rc), unchecked_un(urc))));
    assert forall|j: int| 0 <= j < r.result.len() implies match #[trigger] r.result[j] {
        JoinKindView::InitVar(v) => 0 <= v < r.infos.len(),
        JoinKindView::InnerJoin(n2, ..) => 0 <= n2 < r.infos.len() && r.infos[n2 as int].join_helper is Some,
        _ => true,
    } by {
        if j < st1.result.len() {
            assert(r.result[j] == st1.result[j]);
            assert(joins_have_helpers(PlanState { infos: st4.infos, ..st1 }));
            assert((PlanState { infos: st4.infos, ..st1 }).result[j] == st1.result[j]);
        }
    }
}

proof fn lemma_inner_joins_helpers(st: PlanState, inp: PlanInput)
    requires
        joins_have_helpers(st),
    ensures
        joins_have_helpers(inner_joins(st, inp).0),
    decreases st.relations_left.len(),
{
    if st.ok && st.relations_left.len() != 0 {
        let i = first_where(st.relations_left, rel_touches(st.available));
        if 0 <= i < st.relations_left.len() {
            if join_fails(st, inp, i) {
                lemma_joins_kept(st, st.infos);
            } else {
                lemma_join_step(st, inp, i);
                lemma_join_step_helpers(st, inp, i);
                lemma_inner_joins_helpers(join_step(st, inp, i), inp);
            }
        }
    }
}

proof fn lemma_init_var_helpers(st: PlanState, inp: PlanInput)
    requires
        joins_have_helpers(st),
        inp.indices.len() == st.infos.len(),
        forall|k: int| 0 <= k < inp.indices.len() ==> inp.indices[k] == k,
    ensures
        joins_have_helpers(init_var_step(st, inp)),
{
    let k = pick(st, inp);
    if !(k < 0 || st.init_rank >= u32::MAX) {
        assert(is_pick(st, inp, k));
        let r = init_var_step(st, inp);
        assert(helpers_kept(st.infos, r.infos));
        lemma_joins_kept(st, r.infos);
        assert forall|j: int| 0 <= j < r.result.len() implies match #[trigger] r.result[j] {
            JoinKindView::InitVar(v) => 0 <= v < r.infos.len(),
            JoinKindView::InnerJoin(n2, ..) => 0 <= n2 < r.infos.len() && r.infos[n2 as int].join_helper is Some,
            _ => true,
        } by {
            if j < st.result.len() {
                assert(r.result[j] == st.result[j]);
                assert((PlanState { infos: r.infos, ..st }).result[j] == st.result[j]);
            }
        }
    }
}

proof fn lemma_invar_phase_helpers(st0: PlanState, inp: PlanInput, pk: Seq<isize>)
    requires
        st0.result.len() == 0,
    ensures
        joins_have_helpers(invar_phase(st0, inp, pk)),
{
    let r = invar_phase(st0, inp, pk);
    let n = st0.infos.len() as int;
    let keys = keys_below(pk, n);
    if pk.len() != 0 && !((exists|j: int| 0 <= j < pk.len() && !(0 <= #[trigger] pk[j] < n)) || keys.len() > u32::MAX) {
        let sa = PlanState { available: keys, infos: assign_ranks(st0.infos, keys), init_rank: keys.len(), ..st0 };
        lemma_checks_keep_helpers(sa, inp);
        let (sb, ue) = take_unequals(sa);
        lemma_checks_keep_helpers(sb, inp);
        let (sc, rc) = take_constraints(sb, inp);
        lemma_checks_keep_helpers(sc, inp);
        assert(r.result.len() == 1);
        assert(r.result[0] is InitInvars);
    }
}

/// In a plan that gets through, each variable a step binds is a variable, and
/// one bound by following a relation has the helper that follows it.
pub proof fn lemma_plan_joins_have_helpers(
    inp: PlanInput,
    infos: Seq<InfoPlan>,
    pk: Seq<isize>,
    rels: Seq<(Seq<char>, isize, isize)>,
    unequals: Seq<(isize, isize)>,
    unrels: Seq<(Seq<char>, isize, isize, usize)>,
)
    requires
        plan(inp, infos, pk, rels, unequals, unrels).ok,
        infos.len() <= isize::MAX,
        inp.indices.len() == infos.len(),
        forall|k: int| 0 <= k < inp.indices.len() ==> inp.indices[k] == k,
        unranked(infos),
    ensures
        joins_have_helpers(plan(inp, infos, pk, rels, unequals, unrels)),
{
    let n = infos.len() as int;
    let keys = keys_below(pk, n);
    let st0 = start_state(infos, rels, unequals, unrels);
    lemma_invar_phase_helpers(st0, inp, pk);
    let st1 = invar_phase(st0, inp, pk);
    lemma_inner_joins_helpers(st1, inp);
    let (st2, d1) = inner_joins(st1, inp);
    lemma_plan_ok(inp, infos, pk, rels, unequals, unrels);
    if !(d1 && st2.available.len() == infos.len()) {
        lemma_invar_phase_order(st0, inp, pk);
        lemma_inner_joins_keep_order(st1, inp, keys);
        lemma_init_var_helpers(st2, inp);
        lemma_inner_joins_helpers(init_var_step(st2, inp), inp);
    }
}


/// No more steps than variables bound.
pub open spec fn steps_bind(st: PlanState) -> bool {
    st.result.len() <= st.available.len()
}

proof fn lemma_keys_below_has(pk: Seq<isize>, m: int, v: isize)
    requires
        0 <= v < m,
        pk.contains(v),
    ensures
        keys_below(pk, m).contains(v),
    decreases m,
{
    if v < m - 1 {
        lemma_keys_below_has(pk, m - 1, v);
        let prev = keys_below(pk, m - 1);
        let j = choose|j: int| 0 <= j < prev.len() && prev[j] == v;
        if pk.contains((m - 1) as isize) {
            assert(keys_below(pk, m)[j] == v);
        }
    } else {
        assert(keys_below(pk, m).last() == v);
    }
}

proof fn lemma_inner_joins_bind(st: PlanState, inp: PlanInput)
    requires
        steps_bind(st),
    ensures
        steps_bind(inner_joins(st, inp).0),
    decreases st.relations_left.len(),
{
    if st.ok && st.relations_left.len() != 0 {
        let i = first_where(st.relations_left, rel_touches(st.available));
        if 0 <= i < st.relations_left.len() && !join_fails(st, inp, i) {
            lemma_join_step(st, inp, i);
            lemma_inner_joins_bind(join_step(st, inp, i), inp);
        }
    }
}

proof fn lemma_invar_phase_bind(st0: PlanState, inp: PlanInput, pk: Seq<isize>)
    requires
        st0.result.len() == 0,
    ensures
        steps_bind(invar_phase(st0, inp, pk)),
{
    let n = st0.infos.len() as int;
    let keys = keys_below(pk, n);
    if pk.len() != 0 && !((exists|j: int| 0 <= j < pk.len() && !(0 <= #[trigger] pk[j] < n)) || keys.len() > u32::MAX) {
        assert(0 <= pk[0] < n);
        assert(pk.contains(pk[0]));
        lemma_keys_below_has(pk, n, pk[0]);
    }
}

/// A plan has no more steps than variables it binds.
pub proof fn lemma_plan_steps_bind(
    inp: PlanInput,
    infos: Seq<InfoPlan>,
    pk: Seq<isize>,
    rels: Seq<(Seq<char>, isize, isize)>,
    unequals: Seq<(isize, isize)>,
    unrels: Seq<(Seq<char>, isize, isize, usize)>,
)
    requires
        plan(inp, infos, pk, rels, unequals, unrels).ok,
    ensures
        steps_bind(plan(inp, infos, pk, rels, unequals, unrels)),
{
    let st0 = start_state(infos, rels, unequals, unrels);
    lemma_invar_phase_bind(st0, inp, pk);
    let st1 = invar_phase(st0, inp, pk);
    lemma_inner_joins_bind(st1, inp);
    let (st2, d1) = inner_joins(st1, inp);
    lemma_plan_ok(inp, infos, pk, rels, unequals, unrels);
    if !(d1 && st2.available.len() == infos.len()) {
        lemma_inner_joins_bind(init_var_step(st2, inp), inp);
    }
}


proof fn lemma_inner_joins_done(st: PlanState, inp: PlanInput)
    ensures
        inner_joins(st, inp).1 && inner_joins(st, inp).0.ok ==> inner_joins(st, inp).0.relations_left.len() == 0,
    decreases st.relations_left.len(),
{
    if st.ok && st.relations_left.len() != 0 {
        let i = first_where(st.relations_left, rel_touches(st.available));
        if 0 <= i < st.relations_left.len() && !join_fails(st, inp, i) {
            lemma_join_step(st, inp, i);
            lemma_inner_joins_done(join_step(st, inp, i), inp);
        }
    }
}

/// A plan that gets through places every relation as a join or a check, and
/// every unequality as a check.
pub proof fn lemma_plan_places_relations(
    inp: PlanInput,
    infos: Seq<InfoPlan>,
    pk: Seq<isize>,
    rels: Seq<(Seq<char>, isize, isize)>,
    unequals: Seq<(isize, isize)>,
    unrels: Seq<(Seq<char>, isize, isize, usize)>,
)
    requires
        plan(inp, infos, pk, rels, unequals, unrels).ok,
    ensures
        plan(inp, infos, pk, rels, unequals, unrels).relations_left.len() == 0,
        plan(inp, infos, pk, rels, unequals, unrels).unequals.len() == 0,
{
    let st0 = start_state(infos, rels, unequals, unrels);
    let st1 = invar_phase(st0, inp, pk);
    lemma_inner_joins_done(st1, inp);
    let (st2, d1) = inner_joins(st1, inp);
    lemma_plan_ok(inp, infos, pk, rels, unequals, unrels);
    if !(d1 && st2.available.len() == infos.len()) {
        lemma_inner_joins_done(init_var_step(st2, inp), inp);
    }
}


proof fn lemma_first_where_least<A>(s: Seq<A>, p: spec_fn(A) -> bool, i: int)
    requires
        0 <= i < s.len(),
        p(s[i]),
    ensures
        exists|m: int| 0 <= m < s.len() && p(s[m]) && forall|j: int| 0 <= j < m ==> !p(#[trigger] s[j]),
    decreases i,
{
    if exists|j: int| 0 <= j < i && p(s[j]) {
        let j = choose|j: int| 0 <= j < i && p(s[j]);
        lemma_first_where_least(s, p, j);
    } else {
        assert(forall|j: int| 0 <= j < i ==> !p(#[trigger] s[j]));
    }
}

/// Where `first_where` finds nothing, nothing in `s` satisfies `p`.
proof fn lemma_first_where_absent<A>(s: Seq<A>, p: spec_fn(A) -> bool)
    requires
        !(0 <= first_where(s, p) < s.len()),
    ensures
        forall|j: int| 0 <= j < s.len() ==> !p(#[trigger] s[j]),
{
    reveal(first_where);
    if exists|i: int| 0 <= i < s.len() && p(s[i]) {
        let i = choose|i: int| 0 <= i < s.len() && p(s[i]);
        lemma_first_where_least(s, p, i);
    }
}

/// No negated relation left over has both its variables bound.
pub open spec fn unrels_settled(st: PlanState) -> bool {
    forall|k: int|
        0 <= k < st.unrelations_left.len() ==> !unrel_ready(st.available)(#[trigger] st.unrelations_left[k])
}

proof fn lemma_ready_unrelations_settle(us: UnrelState, avail: Seq<isize>, inp: PlanInput)
    ensures
        ({
            let r = ready_unrelations(us, avail, inp).0;
            r.ok ==> forall|k: int| 0 <= k < r.left.len() ==> !unrel_ready(avail)(#[trigger] r.left[k])
        }),
    decreases us.left.len(),
{
    let i = first_where(us.left, unrel_ready(avail));
    if us.ok {
        if !(0 <= i < us.left.len()) {
            lemma_first_where_absent(us.left, unrel_ready(avail));
        } else {
            let r = us.left[i];
            if (0 <= r.1 < us.infos.len() && 0 <= r.2 < us.infos.len()) && us.infos[r.1 as int].rank is Some
                && us.infos[r.2 as int].rank is Some {
                let flip = !(us.infos[r.1 as int].rank.unwrap() < us.infos[r.2 as int].rank.unwrap());
                let (old, new) = by_rank(us.infos, r.1, r.2);
                if inp.indices[old as int] == old {
                    let i3 = add_unrel_helper(us.infos, old, new, r.0, flip, r.3);
                    lemma_ready_unrelations_settle(
                        UnrelState { infos: i3, left: swap_remove(us.left, i), ok: true },
                        avail,
                        inp,
                    );
                }
            }
        }
    }
}

proof fn lemma_checks_step_settles(st1: PlanState, inp: PlanInput, new: isize)
    ensures
        checks_step(st1, inp, new).ok ==> unrels_settled(checks_step(st1, inp, new)),
{
    let (st2, ue) = take_unequals(st1);
    let (st3, rc) = take_constraints(st2, inp);
    lemma_ready_unrelations_settle(
        UnrelState { infos: st3.infos, left: st3.unrelations_left, ok: st3.ok },
        st3.available,
        inp,
    );
}

/// After the joins, the negated relations are settled, unless no join was made.
proof fn lemma_inner_joins_settle(st: PlanState, inp: PlanInput)
    ensures
        inner_joins(st, inp).0.ok ==> (unrels_settled(inner_joins(st, inp).0) || inner_joins(st, inp).0 == st),
    decreases st.relations_left.len(),
{
    if st.ok && st.relations_left.len() != 0 {
        let i = first_where(st.relations_left, rel_touches(st.available));
        if 0 <= i < st.relations_left.len() && !join_fails(st, inp, i) {
            lemma_join_step(st, inp, i);
            let nx = join_step(st, inp, i);
            lemma_checks_step_settles(bind_step(st, inp, i), inp, join_ends(st, st.relations_left[i]).1);
            lemma_inner_joins_settle(nx, inp);
        }
    }
}

proof fn lemma_invar_phase_settles(st0: PlanState, inp: PlanInput, pk: Seq<isize>)
    requires
        st0.available.len() == 0,
    ensures
        invar_phase(st0, inp, pk).ok ==> unrels_settled(invar_phase(st0, inp, pk)),
{
    let n = st0.infos.len() as int;
    let keys = keys_below(pk, n);
    if pk.len() != 0 && !((exists|j: int| 0 <= j < pk.len() && !(0 <= #[trigger] pk[j] < n)) || keys.len() > u32::MAX) {
        let sa = PlanState {
            available: keys,
            infos: assign_ranks(st0.infos, keys),
            init_rank: keys.len(),
            ..st0
        };
        let (sb, ue) = take_unequals(sa);
        let (sc, rc) = take_constraints(sb, inp);
        lemma_ready_unrelations_settle(
            UnrelState { infos: sc.infos, left: sc.unrelations_left, ok: sc.ok },
            sc.available,
            inp,
        );
    }
}

/// A plan that gets through places every negated relation between two of its
/// variables as a check, unless its last step binds a starting variable: a
/// negated relation that only this last variable completes is left out.
pub proof fn lemma_plan_places_unrelations(
    inp: PlanInput,
    infos: Seq<InfoPlan>,
    pk: Seq<isize>,
    rels: Seq<(Seq<char>, isize, isize)>,
    unequals: Seq<(isize, isize)>,
    unrels: Seq<(Seq<char>, isize, isize, usize)>,
)
    requires
        plan(inp, infos, pk, rels, unequals, unrels).ok,
        infos.len() <= isize::MAX,
        inp.indices.len() == infos.len(),
        forall|k: int| 0 <= k < inp.indices.len() ==> inp.indices[k] == k,
        unranked(infos),
        plan(inp, infos, pk, rels, unequals, unrels).result.len() == 0
            || !(plan(inp, infos, pk, rels, unequals, unrels).result.last() is InitVar),
    ensures
        ({
            let st = plan(inp, infos, pk, rels, unequals, unrels);
            let n = infos.len() as int;
            forall|k: int|
                0 <= k < st.unrelations_left.len() ==> !(0 <= (#[trigger] st.unrelations_left[k]).1 < n && 0
                    <= st.unrelations_left[k].2 < n)
        }),
{
    let st0 = start_state(infos, rels, unequals, unrels);
    lemma_invar_phase_settles(st0, inp, pk);
    let st1 = invar_phase(st0, inp, pk);
    lemma_inner_joins_settle(st1, inp);
    let (st2, d1) = inner_joins(st1, inp);
    lemma_plan_ok(inp, infos, pk, rels, unequals, unrels);
    let st = plan(inp, infos, pk, rels, unequals, unrels);
    if !(d1 && st2.available.len() == infos.len()) {
        let s3 = init_var_step(st2, inp);
        lemma_inner_joins_settle(s3, inp);
        if inner_joins(s3, inp).0 == s3 {
            assert(s3.result.last() is InitVar);
        }
    }
    assert(unrels_settled(st));
    lemma_plan_binds_each_var_once(inp, infos, pk, rels, unequals, unrels);
    let n = infos.len() as int;
    assert forall|k: int| 0 <= k < st.unrelations_left.len() implies !(0 <= (#[trigger] st.unrelations_left[k]).1 < n
        && 0 <= st.unrelations_left[k].2 < n) by {
        let u = st.unrelations_left[k];
        if 0 <= u.1 < n && 0 <= u.2 < n {
            assert(st.available.contains(u.1));
            assert(st.available.contains(u.2));
            assert(!unrel_ready(st.available)(st.unrelations_left[k]));
        }
    }
}
} // verus!
