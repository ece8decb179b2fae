//! What a plan promises about its helpers and checks: each relation helper addresses the
//! relation's column inside its own variable's component list, each negated-relation helper
//! reads the side of the relation its variable stands on, and each negated relation is
//! checked under its own number, at most once.
use vstd::prelude::*;

use crate::generator::RelationHelperInfo;
use crate::join_order::{
    add_helper, add_unrel_helper, assign_ranks, bind_step, by_rank, checks_step, column_of, first_where,
    init_var_step, inner_joins, invar_phase, is_pick, join_ends, join_fails, join_step, keys_below,
    lemma_join_step, lemma_keys_below, non_any_unrels, pick, plan, plan_steps, ready_relations,
    ready_unrelations, rel_ready, rel_touches, start_state, stop, swap_remove, take_constraints,
    take_unequals, take_unrelations, unchecked, unchecked_un, unrel_ready, HelperState, InfoPlan,
    JoinKindView, PlanInput, PlanState, UnrelHelperView, UnrelState, UnrelationConstraint,
};

verus! {

/// The helper of a negated relation reads the side of `u` its variable stands on: the
/// origin side when it sits on the origin (`flip_target` false), the target side otherwise.
pub open spec fn unrel_matches(h: UnrelHelperView, u: (Seq<char>, isize, isize, usize)) -> bool {
    &&& h.ty == u.0
    &&& h.nr == u.3
    &&& if h.flip_target {
        h.old_var == u.2 && h.new_var == u.1
    } else {
        h.old_var == u.1 && h.new_var == u.2
    }
}

/// Every relation helper sits on its own variable and addresses the relation's column
/// inside that variable's component list: the column is the start of the variable's
/// columns plus the helper's index.
pub open spec fn rel_helpers_sit(infos: Seq<InfoPlan>, inp: PlanInput) -> bool {
    forall|v: int, j: int|
        0 <= v < infos.len() && 0 <= j < infos[v].rel_helpers.len() ==> helper_sits(
            #[trigger] infos[v].rel_helpers[j],
            v,
            inp,
        )
}

/// The relation helper `h` sits on variable `v` and addresses a column of `v`.
pub open spec fn helper_sits(h: RelationHelperInfo, v: int, inp: PlanInput) -> bool {
    &&& h.old_var == v
    &&& h.column_index == inp.starts[v] + h.cid_index
}

/// Every negated-relation helper belongs to one of the negated relations `us`.
pub open spec fn unrel_helpers_from(infos: Seq<InfoPlan>, us: Seq<(Seq<char>, isize, isize, usize)>) -> bool {
    forall|v: int, j: int|
        0 <= v < infos.len() && 0 <= j < infos[v].unrel_helpers.len() ==> helper_from(
            #[trigger] infos[v].unrel_helpers[j],
            us,
        ) && infos[v].unrel_helpers[j].old_var == v
}

/// The negated-relation helper `h` belongs to one of the negated relations `us`.
pub open spec fn helper_from(h: UnrelHelperView, us: Seq<(Seq<char>, isize, isize, usize)>) -> bool {
    exists|k: int| 0 <= k < us.len() && #[trigger] unrel_matches(h, us[k])
}

/// The infos keep their lengths and their helper lists.
pub open spec fn same_helper_lists(a: Seq<InfoPlan>, b: Seq<InfoPlan>) -> bool {
    &&& a.len() == b.len()
    &&& forall|v: int|
        0 <= v < a.len() ==> (#[trigger] a[v]).rel_helpers == b[v].rel_helpers && a[v].unrel_helpers
            == b[v].unrel_helpers
}

/// Both helper laws hold of the infos.
pub open spec fn helpers_sound(infos: Seq<InfoPlan>, inp: PlanInput, us: Seq<(Seq<char>, isize, isize, usize)>) -> bool {
    &&& infos.len() == inp.starts.len()
    &&& infos.len() == inp.indices.len()
    &&& rel_helpers_sit(infos, inp)
    &&& unrel_helpers_from(infos, us)
}

proof fn lemma_same_lists_sound(a: Seq<InfoPlan>, b: Seq<InfoPlan>, inp: PlanInput, us: Seq<(Seq<char>, isize, isize, usize)>)
    requires
        helpers_sound(b, inp, us),
        same_helper_lists(a, b),
    ensures
        helpers_sound(a, inp, us),
{
    assert forall|v: int, j: int| 0 <= v < a.len() && 0 <= j < a[v].rel_helpers.len() implies helper_sits(
        #[trigger] a[v].rel_helpers[j],
        v,
        inp,
    ) by {
        assert(a[v].rel_helpers == b[v].rel_helpers);
        assert(b[v].rel_helpers[j] == a[v].rel_helpers[j]);
    }
    assert forall|v: int, j: int| 0 <= v < a.len() && 0 <= j < a[v].unrel_helpers.len() implies helper_from(
        #[trigger] a[v].unrel_helpers[j],
        us,
    ) && a[v].unrel_helpers[j].old_var == v by {
        assert(a[v].unrel_helpers == b[v].unrel_helpers);
        assert(b[v].unrel_helpers[j] == a[v].unrel_helpers[j]);
    }
}

proof fn lemma_add_helper_sound(
    infos: Seq<InfoPlan>,
    inp: PlanInput,
    us: Seq<(Seq<char>, isize, isize, usize)>,
    old: isize,
    new: isize,
    col: usize,
    nr: nat,
)
    requires
        helpers_sound(infos, inp, us),
        0 <= old < infos.len(),
        0 <= new < infos.len(),
        col >= inp.starts[old as int],
    ensures
        helpers_sound(add_helper(infos, old, new, col, inp.starts[old as int], nr), inp, us),
{
    let r = add_helper(infos, old, new, col, inp.starts[old as int], nr);
    assert(r.len() == infos.len());
    assert forall|v: int, j: int| 0 <= v < r.len() && 0 <= j < r[v].rel_helpers.len() implies helper_sits(
        #[trigger] r[v].rel_helpers[j],
        v,
        inp,
    ) by {
        if v != old as int {
            assert(r[v].rel_helpers == infos[v].rel_helpers);
            assert(infos[v].rel_helpers[j] == r[v].rel_helpers[j]);
        } else if j < infos[v].rel_helpers.len() {
            assert(infos[v].rel_helpers[j] == r[v].rel_helpers[j]);
        }
    }
    assert forall|v: int, j: int| 0 <= v < r.len() && 0 <= j < r[v].unrel_helpers.len() implies helper_from(
        #[trigger] r[v].unrel_helpers[j],
        us,
    ) && r[v].unrel_helpers[j].old_var == v by {
        assert(r[v].unrel_helpers == infos[v].unrel_helpers);
        assert(infos[v].unrel_helpers[j] == r[v].unrel_helpers[j]);
    }
}

/// Placing the relation checks keeps the helper laws.
proof fn lemma_ready_relations_sound(hs: HelperState, avail: Seq<isize>, inp: PlanInput, us: Seq<(Seq<char>, isize, isize, usize)>)
    requires
        helpers_sound(hs.infos, inp, us),
    ensures
        helpers_sound(ready_relations(hs, avail, inp).0.infos, inp, us),
    decreases hs.left.len(),
{
    let i = first_where(hs.left, rel_ready(avail));
    if hs.ok && 0 <= i < hs.left.len() {
        let r = hs.left[i];
        if (0 <= r.1 < hs.infos.len() && 0 <= r.2 < hs.infos.len()) && hs.infos[r.1 as int].rank is Some
            && hs.infos[r.2 as int].rank is Some {
            let (old, new) = by_rank(hs.infos, r.1, r.2);
            let col = column_of(inp.related[old as int], (r.0, new));
            if !(inp.indices[old as int] != old || col is None || col.unwrap() < inp.starts[old as int]
                || hs.nr >= usize::MAX) {
                lemma_add_helper_sound(hs.infos, inp, us, old, new, col.unwrap(), hs.nr);
                let i2 = add_helper(hs.infos, old, new, col.unwrap(), inp.starts[old as int], hs.nr);
                let hs2 = HelperState { infos: i2, left: swap_remove(hs.left, i), nr: hs.nr + 1, ok: true };
                lemma_ready_relations_sound(hs2, avail, inp, us);
            }
        }
    }
}

/// The numbers of the negated relations.
pub open spec fn unrel_nrs(us: Seq<(Seq<char>, isize, isize, usize)>) -> Seq<usize> {
    us.map_values(|u: (Seq<char>, isize, isize, usize)| u.3)
}

/// The helper numbers that the checks of negated relations use.
pub open spec fn check_nrs(cs: Seq<UnrelationConstraint>) -> Seq<usize> {
    cs.map_values(|c: UnrelationConstraint| c.helper_nr)
}

/// Every negated relation still to place is one of `us`.
pub open spec fn left_from(left: Seq<(Seq<char>, isize, isize, usize)>, us: Seq<(Seq<char>, isize, isize, usize)>) -> bool {
    forall|i: int| 0 <= i < left.len() ==> us.contains(#[trigger] left[i])
}

proof fn lemma_swap_remove_multiset<A>(s: Seq<A>, i: int)
    requires
        0 <= i < s.len(),
    ensures
        swap_remove(s, i).to_multiset() =~= s.to_multiset().remove(s[i]),
{
    broadcast use vstd::seq_lib::group_to_multiset_ensures, vstd::multiset::group_multiset_axioms;

    let t = s.update(i, s.last());
    assert(t.to_multiset() =~= s.to_multiset().insert(s.last()).remove(s[i]));
    assert(t.drop_last() =~= t.remove(t.len() - 1));
    assert(t[t.len() - 1] == s.last());
    assert(t.drop_last().to_multiset() =~= t.to_multiset().remove(s.last()));
    assert(s.to_multiset().insert(s.last()).remove(s[i]).remove(s.last()) =~= s.to_multiset().remove(s[i]));
}

proof fn lemma_add_unrel_sound(
    infos: Seq<InfoPlan>,
    inp: PlanInput,
    us: Seq<(Seq<char>, isize, isize, usize)>,
    old: isize,
    new: isize,
    ty: Seq<char>,
    flip: bool,
    nr: usize,
)
    requires
        helpers_sound(infos, inp, us),
        0 <= old < infos.len(),
        0 <= new < infos.len(),
        helper_from(UnrelHelperView { ty, flip_target: flip, old_var: old, new_var: new, nr }, us),
    ensures
        helpers_sound(add_unrel_helper(infos, old, new, ty, flip, nr), inp, us),
{
    let r = add_unrel_helper(infos, old, new, ty, flip, nr);
    assert(r.len() == infos.len());
    assert forall|v: int, j: int| 0 <= v < r.len() && 0 <= j < r[v].rel_helpers.len() implies helper_sits(
        #[trigger] r[v].rel_helpers[j],
        v,
        inp,
    ) by {
        assert(r[v].rel_helpers == infos[v].rel_helpers);
        assert(infos[v].rel_helpers[j] == r[v].rel_helpers[j]);
    }
    assert forall|v: int, j: int| 0 <= v < r.len() && 0 <= j < r[v].unrel_helpers.len() implies helper_from(
        #[trigger] r[v].unrel_helpers[j],
        us,
    ) && r[v].unrel_helpers[j].old_var == v by {
        if v != old as int {
            assert(r[v].unrel_helpers == infos[v].unrel_helpers);
            assert(infos[v].unrel_helpers[j] == r[v].unrel_helpers[j]);
        } else if j < infos[v].unrel_helpers.len() {
            assert(infos[v].unrel_helpers[j] == r[v].unrel_helpers[j]);
        }
    }
}

/// Placing the checks of negated relations keeps the helper laws, takes only negated
/// relations that were still to place, and gives each check the number of the negated
/// relation it takes out.
proof fn lemma_ready_unrelations_sound(us: UnrelState, avail: Seq<isize>, inp: PlanInput, all: Seq<(Seq<char>, isize, isize, usize)>)
    requires
        helpers_sound(us.infos, inp, all),
        left_from(us.left, all),
    ensures
        ({
            let (r, cs) = ready_unrelations(us, avail, inp);
            &&& helpers_sound(r.infos, inp, all)
            &&& left_from(r.left, all)
            &&& (check_nrs(cs) + unrel_nrs(r.left)).to_multiset() =~= unrel_nrs(us.left).to_multiset()
        }),
    decreases us.left.len(),
{
    broadcast use vstd::seq_lib::group_to_multiset_ensures, vstd::multiset::group_multiset_axioms;

    let i = first_where(us.left, unrel_ready(avail));
    let (r0, cs0) = ready_unrelations(us, avail, inp);
    if !us.ok || !(0 <= i < us.left.len()) {
        assert(check_nrs(cs0) + unrel_nrs(r0.left) =~= unrel_nrs(us.left));
    } else {
        let r = us.left[i];
        if !(0 <= r.1 < us.infos.len() && 0 <= r.2 < us.infos.len()) || us.infos[r.1 as int].rank is None
            || us.infos[r.2 as int].rank is None {
            assert(check_nrs(cs0) + unrel_nrs(r0.left) =~= unrel_nrs(us.left));
        } else {
            let flip = !(us.infos[r.1 as int].rank.unwrap() < us.infos[r.2 as int].rank.unwrap());
            let (old, new) = by_rank(us.infos, r.1, r.2);
            if inp.indices[old as int] != old {
                assert(check_nrs(cs0) + unrel_nrs(r0.left) =~= unrel_nrs(us.left));
            } else {
                assert(all.contains(r));
                let k = choose|k: int| 0 <= k < all.len() && all[k] == r;
                assert(unrel_matches(UnrelHelperView { ty: r.0, flip_target: flip, old_var: old, new_var: new, nr: r.3 }, all[k]));
                lemma_add_unrel_sound(us.infos, inp, all, old, new, r.0, flip, r.3);
                let i3 = add_unrel_helper(us.infos, old, new, r.0, flip, r.3);
                let left2 = swap_remove(us.left, i);
                assert forall|q: int| 0 <= q < left2.len() implies all.contains(#[trigger] left2[q]) by {
                    if q == i {
                        assert(left2[q] == us.left.last());
                        assert(all.contains(us.left[us.left.len() - 1]));
                    } else {
                        assert(left2[q] == us.left[q]);
                    }
                }
                let us2 = UnrelState { infos: i3, left: left2, ok: true };
                lemma_ready_unrelations_sound(us2, avail, inp, all);
                let (us3, rest) = ready_unrelations(us2, avail, inp);
                let c = UnrelationConstraint { helper_nr: r.3, checked_invar: Some(new) };
                assert(cs0 == seq![c] + rest);
                assert(r0 == us3);
                assert(unrel_nrs(left2) =~= swap_remove(unrel_nrs(us.left), i));
                lemma_swap_remove_multiset(unrel_nrs(us.left), i);
                assert(check_nrs(cs0) + unrel_nrs(r0.left) =~= seq![r.3] + (check_nrs(rest) + unrel_nrs(us3.left)));
                vstd::seq_lib::lemma_multiset_commutative(seq![r.3], check_nrs(rest) + unrel_nrs(us3.left));
                assert(unrel_nrs(us.left)[i] == r.3);
                assert(unrel_nrs(us.left).to_multiset().count(r.3) > 0);
                assert(unrel_nrs(us.left).to_multiset().remove(r.3).insert(r.3) =~= unrel_nrs(us.left).to_multiset());
                assert(seq![r.3].to_multiset() =~= vstd::multiset::Multiset::empty().insert(r.3));
            }
        }
    }
}

/// The checks of negated relations a step places.
pub open spec fn step_checks(k: JoinKindView) -> Seq<UnrelationConstraint> {
    match k {
        JoinKindView::InitInvars(_, _, u) => u,
        JoinKindView::InitVar(_) => Seq::empty(),
        JoinKindView::InnerJoin(_, _, _, u) => u,
    }
}

/// The checks of negated relations the steps place, in order.
pub open spec fn placed_checks(result: Seq<JoinKindView>) -> Seq<UnrelationConstraint>
    decreases result.len(),
{
    if result.len() == 0 {
        Seq::empty()
    } else {
        placed_checks(result.drop_last()) + step_checks(result.last())
    }
}

/// The planner midway: the helper laws hold, only negated relations of `all` are still
/// to place, and the numbers of the placed checks and of those still to place are the
/// numbers of `all`.
pub open spec fn plan_inv(st: PlanState, inp: PlanInput, all: Seq<(Seq<char>, isize, isize, usize)>) -> bool {
    &&& helpers_sound(st.infos, inp, all)
    &&& left_from(st.unrelations_left, all)
    &&& (check_nrs(placed_checks(st.result)) + unrel_nrs(st.unrelations_left)).to_multiset() == unrel_nrs(
        all,
    ).to_multiset()
}

proof fn lemma_placed_push(r: Seq<JoinKindView>, k: JoinKindView)
    ensures
        placed_checks(r.push(k)) == placed_checks(r) + step_checks(k),
{
    assert(r.push(k).drop_last() =~= r);
}

/// Adding checks of negated relations, taken out of those still to place, keeps the count.
proof fn lemma_count_moves(p: Seq<usize>, c: Seq<usize>, l_new: Seq<usize>, l_old: Seq<usize>, all: Seq<usize>)
    requires
        (c + l_new).to_multiset() == l_old.to_multiset(),
        (p + l_old).to_multiset() == all.to_multiset(),
    ensures
        (p + c + l_new).to_multiset() == all.to_multiset(),
{
    assert(p + c + l_new =~= p + (c + l_new));
    vstd::seq_lib::lemma_multiset_commutative(p, c + l_new);
    vstd::seq_lib::lemma_multiset_commutative(p, l_old);
}

proof fn lemma_checks_step_inv(st1: PlanState, inp: PlanInput, new: isize, all: Seq<(Seq<char>, isize, isize, usize)>)
    requires
        plan_inv(st1, inp, all),
    ensures
        plan_inv(checks_step(st1, inp, new), inp, all),
{
    let (st2, ue) = take_unequals(st1);
    lemma_ready_relations_sound(
        HelperState { infos: st2.infos, left: st2.relations_left, nr: st2.helper_nr, ok: st2.ok },
        st2.available,
        inp,
        all,
    );
    let (st3, rc) = take_constraints(st2, inp);
    lemma_ready_unrelations_sound(
        UnrelState { infos: st3.infos, left: st3.unrelations_left, ok: st3.ok },
        st3.available,
        inp,
        all,
    );
    let (st4, urc) = take_unrelations(st3, inp);
    let k = JoinKindView::InnerJoin(new, ue, unchecked(rc), unchecked_un(urc));
    let r = checks_step(st1, inp, new);
    assert(r.result == st1.result.push(k));
    lemma_placed_push(st1.result, k);
    assert(check_nrs(unchecked_un(urc)) =~= check_nrs(urc));
    let p = check_nrs(placed_checks(st1.result));
    assert(check_nrs(placed_checks(r.result)) =~= p + check_nrs(urc));
    lemma_count_moves(p, check_nrs(urc), unrel_nrs(st4.unrelations_left), unrel_nrs(st1.unrelations_left), unrel_nrs(all));
}

proof fn lemma_join_step_inv(st: PlanState, inp: PlanInput, i: int, all: Seq<(Seq<char>, isize, isize, usize)>)
    requires
        plan_inv(st, inp, all),
        0 <= i < st.relations_left.len(),
        !join_fails(st, inp, i),
    ensures
        plan_inv(join_step(st, inp, i), inp, all),
{
    let join = st.relations_left[i];
    let (old, new) = join_ends(st, join);
    let col = column_of(inp.related[old as int], (join.0, new)).unwrap();
    lemma_add_helper_sound(st.infos, inp, all, old, new, col, st.helper_nr);
    let i2 = add_helper(st.infos, old, new, col, inp.starts[old as int], st.helper_nr);
    let st1 = bind_step(st, inp, i);
    assert(same_helper_lists(st1.infos, i2));
    lemma_same_lists_sound(st1.infos, i2, inp, all);
    lemma_checks_step_inv(st1, inp, new, all);
}

proof fn lemma_inner_joins_inv(st: PlanState, inp: PlanInput, all: Seq<(Seq<char>, isize, isize, usize)>)
    requires
        plan_inv(st, inp, all),
    ensures
        plan_inv(inner_joins(st, inp).0, inp, all),
    decreases st.relations_left.len(),
{
    if st.ok && st.relations_left.len() != 0 {
        let i = first_where(st.relations_left, rel_touches(st.available));
        if 0 <= i < st.relations_left.len() && !join_fails(st, inp, i) {
            lemma_join_step(st, inp, i);
            lemma_join_step_inv(st, inp, i, all);
            lemma_inner_joins_inv(join_step(st, inp, i), inp, all);
        }
    }
}

proof fn lemma_init_var_inv(st: PlanState, inp: PlanInput, all: Seq<(Seq<char>, isize, isize, usize)>)
    requires
        plan_inv(st, inp, all),
    ensures
        plan_inv(init_var_step(st, inp), inp, all),
{
    let k = pick(st, inp);
    if !(k < 0 || st.init_rank >= u32::MAX) {
        assert(is_pick(st, inp, k));
        let r = init_var_step(st, inp);
        assert(same_helper_lists(r.infos, st.infos));
        lemma_same_lists_sound(r.infos, st.infos, inp, all);
        lemma_placed_push(st.result, JoinKindView::InitVar(inp.indices[k]));
        assert(placed_checks(r.result) =~= placed_checks(st.result));
    }
}

proof fn lemma_assign_ranks_lists(infos: Seq<InfoPlan>, keys: Seq<isize>)
    requires
        forall|j: int| 0 <= j < keys.len() ==> 0 <= #[trigger] keys[j] < infos.len(),
    ensures
        same_helper_lists(assign_ranks(infos, keys), infos),
    decreases keys.len(),
{
    if keys.len() > 0 {
        let prev = keys.drop_last();
        assert forall|j: int| 0 <= j < prev.len() implies 0 <= #[trigger] prev[j] < infos.len() by {
            assert(prev[j] == keys[j]);
        }
        lemma_assign_ranks_lists(infos, prev);
        assert(0 <= keys[keys.len() - 1] < infos.len());
    }
}

proof fn lemma_invar_phase_inv(st0: PlanState, inp: PlanInput, pk: Seq<isize>, all: Seq<(Seq<char>, isize, isize, usize)>)
    requires
        plan_inv(st0, inp, all),
        st0.infos.len() <= isize::MAX,
    ensures
        plan_inv(invar_phase(st0, inp, pk), inp, all),
{
    let n = st0.infos.len() as int;
    let keys = keys_below(pk, n);
    if pk.len() != 0 && !((exists|j: int| 0 <= j < pk.len() && !(0 <= #[trigger] pk[j] < n)) || keys.len() > u32::MAX) {
        assert forall|j: int| 0 <= j < keys.len() implies 0 <= #[trigger] keys[j] < st0.infos.len() by {
            lemma_keys_below(pk, n, j);
        }
        lemma_assign_ranks_lists(st0.infos, keys);
        let sa = PlanState { available: keys, infos: assign_ranks(st0.infos, keys), init_rank: keys.len(), ..st0 };
        lemma_same_lists_sound(sa.infos, st0.infos, inp, all);
        let (sb, ue) = take_unequals(sa);
        lemma_ready_relations_sound(
            HelperState { infos: sb.infos, left: sb.relations_left, nr: sb.helper_nr, ok: sb.ok },
            sb.available,
            inp,
            all,
        );
        let (sc, rc) = take_constraints(sb, inp);
        lemma_ready_unrelations_sound(
            UnrelState { infos: sc.infos, left: sc.unrelations_left, ok: sc.ok },
            sc.available,
            inp,
            all,
        );
        let (sd, urc) = take_unrelations(sc, inp);
        let k = JoinKindView::InitInvars(ue, rc, urc);
        lemma_placed_push(sa.result, k);
        let p = check_nrs(placed_checks(sa.result));
        assert(check_nrs(placed_checks(sa.result.push(k))) =~= p + check_nrs(urc));
        lemma_count_moves(p, check_nrs(urc), unrel_nrs(sd.unrelations_left), unrel_nrs(sa.unrelations_left), unrel_nrs(all));
    }
}

/// The invariant holds of every plan, whether it gets through or not.
proof fn lemma_plan_inv(
    inp: PlanInput,
    infos: Seq<InfoPlan>,
    pk: Seq<isize>,
    rels: Seq<(Seq<char>, isize, isize)>,
    unequals: Seq<(isize, isize)>,
    unrels: Seq<(Seq<char>, isize, isize, usize)>,
)
    requires
        infos.len() <= isize::MAX,
        inp.indices.len() == infos.len(),
        inp.starts.len() == infos.len(),
        forall|v: int| 0 <= v < infos.len() ==> (#[trigger] infos[v]).rel_helpers.len() == 0 && infos[v].unrel_helpers.len() == 0,
    ensures
        plan_inv(plan(inp, infos, pk, rels, unequals, unrels), inp, non_any_unrels(unrels)),
{
    let all = non_any_unrels(unrels);
    let st0 = start_state(infos, rels, unequals, unrels);
    assert(placed_checks(st0.result) =~= Seq::<UnrelationConstraint>::empty());
    assert(check_nrs(placed_checks(st0.result)) + unrel_nrs(all) =~= unrel_nrs(all));
    assert(plan_inv(st0, inp, all));
    lemma_invar_phase_inv(st0, inp, pk, all);
    let st1 = invar_phase(st0, inp, pk);
    lemma_inner_joins_inv(st1, inp, all);
    let (st2, d1) = inner_joins(st1, inp);
    lemma_init_var_inv(st2, inp, all);
    lemma_inner_joins_inv(init_var_step(st2, inp), inp, all);
    let st = plan_steps(inp, infos, pk, rels, unequals, unrels);
    assert(plan_inv(st, inp, all));
    assert(plan_inv(stop(st), inp, all));
}

proof fn lemma_non_any_within(s: Seq<(Seq<char>, isize, isize, usize)>)
    ensures
        forall|i: int| 0 <= i < non_any_unrels(s).len() ==> s.contains(#[trigger] non_any_unrels(s)[i]),
        forall|n: usize| #[trigger] unrel_nrs(non_any_unrels(s)).to_multiset().count(n) <= unrel_nrs(s).to_multiset().count(n),
    decreases s.len(),
{
    broadcast use vstd::seq_lib::group_to_multiset_ensures, vstd::multiset::group_multiset_axioms;

    if s.len() > 0 {
        let prev = s.drop_last();
        lemma_non_any_within(prev);
        let a = non_any_unrels(prev);
        assert(unrel_nrs(s) =~= unrel_nrs(prev).push(s.last().3));
        assert(unrel_nrs(a.push(s.last())) =~= unrel_nrs(a).push(s.last().3));
        assert forall|i: int| 0 <= i < non_any_unrels(s).len() implies s.contains(#[trigger] non_any_unrels(s)[i]) by {
            if i < a.len() {
                assert(non_any_unrels(s)[i] == a[i]);
                let k = choose|k: int| 0 <= k < prev.len() && prev[k] == a[i];
                assert(s[k] == prev[k]);
            } else {
                assert(non_any_unrels(s)[i] == s.last());
                assert(s[s.len() - 1] == s.last());
            }
        }
    }
}

/// Law: every relation helper of a plan sits on its own variable and addresses the
/// relation's column inside that variable's component list: the column is the start of
/// the variable's columns plus the helper's index, so `components_v[cid_index]` is the
/// relation side the helper follows.
pub proof fn lemma_plan_helpers_address_own_columns(
    inp: PlanInput,
    infos: Seq<InfoPlan>,
    pk: Seq<isize>,
    rels: Seq<(Seq<char>, isize, isize)>,
    unequals: Seq<(isize, isize)>,
    unrels: Seq<(Seq<char>, isize, isize, usize)>,
)
    requires
        infos.len() <= isize::MAX,
        inp.indices.len() == infos.len(),
        inp.starts.len() == infos.len(),
        forall|v: int| 0 <= v < infos.len() ==> (#[trigger] infos[v]).rel_helpers.len() == 0 && infos[v].unrel_helpers.len() == 0,
    ensures
        ({
            let st = plan(inp, infos, pk, rels, unequals, unrels);
            forall|v: int, j: int|
                0 <= v < st.infos.len() && 0 <= j < st.infos[v].rel_helpers.len() ==> (#[trigger] st.infos[v].rel_helpers[j]).old_var == v
                    && st.infos[v].rel_helpers[j].column_index == inp.starts[v] + st.infos[v].rel_helpers[j].cid_index
        }),
{
    lemma_plan_inv(inp, infos, pk, rels, unequals, unrels);
    let st = plan(inp, infos, pk, rels, unequals, unrels);
    assert forall|v: int, j: int|
        0 <= v < st.infos.len() && 0 <= j < st.infos[v].rel_helpers.len() implies (#[trigger] st.infos[v].rel_helpers[j]).old_var == v
            && st.infos[v].rel_helpers[j].column_index == inp.starts[v] + st.infos[v].rel_helpers[j].cid_index by {
        assert(helper_sits(st.infos[v].rel_helpers[j], v, inp));
    }
}

/// Law: every check of a negated relation in a plan uses the helper numbered like the
/// negated relation it checks, and no number is checked more often than negated relations
/// carry it; with distinct numbers, each negated relation is checked at most once, on its
/// own helper.
pub proof fn lemma_plan_checks_use_their_own_helpers(
    inp: PlanInput,
    infos: Seq<InfoPlan>,
    pk: Seq<isize>,
    rels: Seq<(Seq<char>, isize, isize)>,
    unequals: Seq<(isize, isize)>,
    unrels: Seq<(Seq<char>, isize, isize, usize)>,
)
    requires
        infos.len() <= isize::MAX,
        inp.indices.len() == infos.len(),
        inp.starts.len() == infos.len(),
        forall|v: int| 0 <= v < infos.len() ==> (#[trigger] infos[v]).rel_helpers.len() == 0 && infos[v].unrel_helpers.len() == 0,
    ensures
        forall|n: usize|
            #[trigger] check_nrs(placed_checks(plan(inp, infos, pk, rels, unequals, unrels).result)).to_multiset().count(n)
                <= unrel_nrs(unrels).to_multiset().count(n),
{
    broadcast use vstd::seq_lib::group_to_multiset_ensures, vstd::multiset::group_multiset_axioms;

    lemma_plan_inv(inp, infos, pk, rels, unequals, unrels);
    lemma_non_any_within(unrels);
    let st = plan(inp, infos, pk, rels, unequals, unrels);
    let p = check_nrs(placed_checks(st.result));
    let l = unrel_nrs(st.unrelations_left);
    vstd::seq_lib::lemma_multiset_commutative(p, l);
    assert forall|n: usize| #[trigger] p.to_multiset().count(n) <= unrel_nrs(unrels).to_multiset().count(n) by {
        assert((p + l).to_multiset().count(n) == p.to_multiset().count(n) + l.to_multiset().count(n));
        assert(unrel_nrs(non_any_unrels(unrels)).to_multiset().count(n) <= unrel_nrs(unrels).to_multiset().count(n));
    }
}

/// Law: every helper of a negated relation in a plan belongs to one of the query's negated
/// relations `R(a, b)` with its type and number, sits on one of `a` and `b`, and reads the
/// side its variable stands on: the origin side (`flip_target` false) when it sits on `a`
/// with `b` as the other variable, the target side when it sits on `b` with `a` as the
/// other variable.
pub proof fn lemma_plan_unrel_helpers_read_their_side(
    inp: PlanInput,
    infos: Seq<InfoPlan>,
    pk: Seq<isize>,
    rels: Seq<(Seq<char>, isize, isize)>,
    unequals: Seq<(isize, isize)>,
    unrels: Seq<(Seq<char>, isize, isize, usize)>,
)
    requires
        infos.len() <= isize::MAX,
        inp.indices.len() == infos.len(),
        inp.starts.len() == infos.len(),
        forall|v: int| 0 <= v < infos.len() ==> (#[trigger] infos[v]).rel_helpers.len() == 0 && infos[v].unrel_helpers.len() == 0,
    ensures
        ({
            let st = plan(inp, infos, pk, rels, unequals, unrels);
            forall|v: int, j: int|
                0 <= v < st.infos.len() && 0 <= j < st.infos[v].unrel_helpers.len() ==> (#[trigger] st.infos[v].unrel_helpers[j]).old_var
                    == v && exists|k: int| 0 <= k < unrels.len() && unrel_matches(st.infos[v].unrel_helpers[j], #[trigger] unrels[k])
        }),
{
    lemma_plan_inv(inp, infos, pk, rels, unequals, unrels);
    lemma_non_any_within(unrels);
    let st = plan(inp, infos, pk, rels, unequals, unrels);
    let all = non_any_unrels(unrels);
    assert forall|v: int, j: int|
        0 <= v < st.infos.len() && 0 <= j < st.infos[v].unrel_helpers.len() implies (#[trigger] st.infos[v].unrel_helpers[j]).old_var
            == v && exists|k: int| 0 <= k < unrels.len() && unrel_matches(st.infos[v].unrel_helpers[j], #[trigger] unrels[k]) by {
        let h = st.infos[v].unrel_helpers[j];
        assert(helper_from(h, all));
        let k = choose|k: int| 0 <= k < all.len() && #[trigger] unrel_matches(h, all[k]);
        assert(unrels.contains(all[k]));
        let k2 = choose|k2: int| 0 <= k2 < unrels.len() && unrels[k2] == all[k];
        assert(unrel_matches(h, unrels[k2]));
    }
}

} // verus!
