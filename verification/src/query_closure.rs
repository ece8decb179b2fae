//! The state machine of the generated query: one step after the other as the
//! plan orders them, then the step that hands out a row.
use crate::archetype_start::{start_decls, start_text, ArchetypeStart, Checks};
use crate::generator::{columns_view, RelationHelperInfo, UnrelationHelperInfo, VarInfo};
use crate::generator_nodes::{accessors_have_columns, accessors_view, yield_text, YieldResult};
use crate::invar_start::{invar_decls, invar_text, invar_view, invars_view, InvarInfo, InvarStart, InvarView};
use crate::join_order::{
    has_key, prefill_keys, results_view, InitInvars, JoinKind, JoinKindView, NewJoin, UnrelHelperView,
};
use crate::query_terms::Accessor;
use crate::relation_join::{join_decls, join_text, RelationJoin};
use vstd::prelude::*;
use vstd::string::StringExecFns;

verus! {

/// What the step that looks up the variables bound from outside reads of a variable info.
pub open spec fn info_invar_view(info: VarInfo) -> InvarView {
    InvarView {
        var_index: info.index,
        range: info.component_range,
        opts: columns_view(info.opt_components@),
        helpers: info.relation_helpers@,
    }
}

/// The variables bound from outside, in the order of their infos.
pub open spec fn bound_infos(infos: Seq<VarInfo>, pk: Seq<isize>) -> Seq<InvarView>
    decreases infos.len(),
{
    if infos.len() == 0 {
        Seq::empty()
    } else if pk.contains(infos.last().index) {
        bound_infos(infos.drop_last(), pk).push(info_invar_view(infos.last()))
    } else {
        bound_infos(infos.drop_last(), pk)
    }
}

/// How many step numbers an entry of the plan takes.
pub open spec fn step_size(j: JoinKindView) -> nat {
    match j {
        JoinKindView::InnerJoin(..) => 1,
        _ => 2,
    }
}

/// The number of the step after those of `js`.
pub open spec fn steps_after(js: Seq<JoinKindView>) -> nat
    decreases js.len(),
{
    if js.len() == 0 {
        0
    } else {
        steps_after(js.drop_last()) + step_size(js.last())
    }
}

/// The code of the steps for one entry of the plan, numbered from `step`.
pub open spec fn node_text(j: JoinKindView, step: nat, infos: Seq<VarInfo>, pk: Seq<isize>) -> Seq<char> {
    match j {
        JoinKindView::InitInvars(ue, rc, urc) => invar_text(step as usize, ue, rc, urc, bound_infos(infos, pk)),
        JoinKindView::InitVar(v) => start_text(
            step as usize,
            v,
            infos[v as int].component_range,
            columns_view(infos[v as int].opt_components@),
            infos[v as int].relation_helpers@,
            Seq::empty(),
            Seq::empty(),
            Seq::empty(),
        ),
        JoinKindView::InnerJoin(new, ue, rc, urc) => join_text(
            step as usize,
            new,
            infos[new as int].component_range,
            ue,
            rc,
            urc,
            columns_view(infos[new as int].opt_components@),
            infos[new as int].relation_helpers@,
            infos[new as int].join_helper_index.unwrap(),
        ),
    }
}

/// What the steps for one entry of the plan declare before the query.
pub open spec fn node_decls(j: JoinKindView, infos: Seq<VarInfo>, pk: Seq<isize>) -> Seq<char> {
    match j {
        JoinKindView::InitInvars(..) => invar_decls(bound_infos(infos, pk)),
        JoinKindView::InitVar(v) => start_decls(
            columns_view(infos[v as int].opt_components@),
            infos[v as int].relation_helpers@,
        ),
        JoinKindView::InnerJoin(new, ..) => join_decls(
            columns_view(infos[new as int].opt_components@),
            infos[new as int].relation_helpers@,
        ),
    }
}

pub open spec fn steps_text(js: Seq<JoinKindView>, infos: Seq<VarInfo>, pk: Seq<isize>) -> Seq<char>
    decreases js.len(),
{
    if js.len() == 0 {
        Seq::empty()
    } else {
        steps_text(js.drop_last(), infos, pk) + node_text(js.last(), steps_after(js.drop_last()), infos, pk)
    }
}

pub open spec fn steps_decls(js: Seq<JoinKindView>, infos: Seq<VarInfo>, pk: Seq<isize>) -> Seq<char>
    decreases js.len(),
{
    if js.len() == 0 {
        Seq::empty()
    } else {
        steps_decls(js.drop_last(), infos, pk) + node_decls(js.last(), infos, pk)
    }
}

/// The steps can be written: each variable the plan binds has an info, and
/// one bound by following a relation has the helper that follows it.
pub open spec fn plan_fits(js: Seq<JoinKindView>, infos: Seq<VarInfo>) -> bool {
    forall|i: int|
        0 <= i < js.len() ==> match #[trigger] js[i] {
            JoinKindView::InitVar(v) => 0 <= v < infos.len(),
            JoinKindView::InnerJoin(new, ..) => 0 <= new < infos.len() && infos[new as int].join_helper_index is Some,
            _ => true,
        }
}

/// The declarations of all steps, then the state machine: the steps in the
/// order of the plan, the step that hands out a row, and a catch-all arm.
pub open spec fn closure_text(
    js: Seq<JoinKindView>,
    infos: Seq<VarInfo>,
    pk: Seq<isize>,
    accs: Seq<crate::query_terms::AccessorView>,
) -> Seq<char> {
    steps_decls(js, infos, pk) + "\n"@ + "\n::std::iter::from_fn(move || { loop { match current_step {"@ + steps_text(
        js,
        infos,
        pk,
    ) + yield_text(steps_after(js) as usize, accs, infos) + "\n_ => unreachable!(),\n}}})\n"@
}

proof fn lemma_steps_after_bound(js: Seq<JoinKindView>)
    ensures
        steps_after(js) <= 2 * js.len(),
    decreases js.len(),
{
    if js.len() > 0 {
        lemma_steps_after_bound(js.drop_last());
    }
}

proof fn lemma_steps_after_mono(js: Seq<JoinKindView>, k: int)
    requires
        0 <= k <= js.len(),
    ensures
        steps_after(js.take(k)) <= steps_after(js),
    decreases js.len() - k,
{
    if k < js.len() {
        lemma_steps_after_mono(js, k + 1);
        assert(js.take(k + 1).drop_last() =~= js.take(k));
    } else {
        assert(js.take(k) =~= js);
    }
}

fn copy_columns(cs: &Vec<(String, usize)>) -> (r: Vec<(String, usize)>)
    ensures
        columns_view(r@) == columns_view(cs@),
{
    let mut r: Vec<(String, usize)> = Vec::new();
    let mut i: usize = 0;
    while i < cs.len()
        invariant
            0 <= i <= cs@.len(),
            r@.len() == i,
            columns_view(r@) == columns_view(cs@).take(i as int),
        decreases cs@.len() - i,
    {
        let ghost before = r@;
        let name = cs[i].0.clone();
        r.push((name, cs[i].1));
        i += 1;
        proof {
            assert forall|j: int| 0 <= j < r@.len() implies #[trigger] columns_view(r@)[j] == columns_view(cs@).take(
                i as int,
            )[j] by {
                if j < i - 1 {
                    assert(r@[j] == before[j]);
                    assert(columns_view(before)[j] == columns_view(cs@).take(i - 1)[j]);
                }
            }
            assert(columns_view(r@) =~= columns_view(cs@).take(i as int));
        }
    }
    proof {
        assert(columns_view(cs@).take(i as int) =~= columns_view(cs@));
    }
    r
}

fn copy_helpers(hs: &Vec<RelationHelperInfo>) -> (r: Vec<RelationHelperInfo>)
    ensures
        r@ == hs@,
{
    let mut r: Vec<RelationHelperInfo> = Vec::new();
    let mut i: usize = 0;
    while i < hs.len()
        invariant
            0 <= i <= hs@.len(),
            r@ == hs@.take(i as int),
        decreases hs@.len() - i,
    {
        let h = &hs[i];
        r.push(
            RelationHelperInfo {
                cid_index: h.cid_index,
                column_index: h.column_index,
                old_var: h.old_var,
                new_var: h.new_var,
                nr: h.nr,
            },
        );
        i += 1;
        proof {
            assert(r@ =~= hs@.take(i as int));
        }
    }
    proof {
        assert(hs@.take(i as int) =~= hs@);
    }
    r
}

pub open spec fn unrel_helpers_view(us: Seq<UnrelationHelperInfo>) -> Seq<UnrelHelperView> {
    us.map_values(|u: UnrelationHelperInfo| u@)
}

fn copy_unrel_helpers(us: &Vec<UnrelationHelperInfo>) -> (r: Vec<UnrelationHelperInfo>)
    ensures
        unrel_helpers_view(r@) == unrel_helpers_view(us@),
{
    let mut r: Vec<UnrelationHelperInfo> = Vec::new();
    let mut i: usize = 0;
    while i < us.len()
        invariant
            0 <= i <= us@.len(),
            r@.len() == i,
            unrel_helpers_view(r@) == unrel_helpers_view(us@).take(i as int),
        decreases us@.len() - i,
    {
        let u = &us[i];
        let ghost before = r@;
        r.push(
            UnrelationHelperInfo {
                ty: u.ty.clone(),
                flip_target: u.flip_target,
                old_var: u.old_var,
                new_var: u.new_var,
                nr: u.nr,
            },
        );
        i += 1;
        proof {
            assert forall|j: int| 0 <= j < r@.len() implies #[trigger] unrel_helpers_view(r@)[j]
                == unrel_helpers_view(us@).take(i as int)[j] by {
                if j < i - 1 {
                    assert(r@[j] == before[j]);
                    assert(unrel_helpers_view(before)[j] == unrel_helpers_view(us@).take(i - 1)[j]);
                }
            }
            assert(unrel_helpers_view(r@) =~= unrel_helpers_view(us@).take(i as int));
        }
    }
    proof {
        assert(unrel_helpers_view(us@).take(i as int) =~= unrel_helpers_view(us@));
    }
    r
}

/// The infos of the variables bound from outside, as the step that looks them up takes them.
fn collect_invars(infos: &[VarInfo], prefills: &[(isize, String)]) -> (r: Vec<InvarInfo>)
    ensures
        invars_view(r@) == bound_infos(infos@, prefill_keys(prefills@)),
{
    let ghost pk = prefill_keys(prefills@);
    let mut r: Vec<InvarInfo> = Vec::new();
    let mut i: usize = 0;
    while i < infos.len()
        invariant
            0 <= i <= infos@.len(),
            pk == prefill_keys(prefills@),
            invars_view(r@) == bound_infos(infos@.take(i as int), pk),
        decreases infos@.len() - i,
    {
        let info = &infos[i];
        proof {
            assert(infos@.take(i + 1).drop_last() =~= infos@.take(i as int));
            assert(infos@.take(i + 1).last() == infos@[i as int]);
        }
        if has_key(prefills, info.index) {
            let inv = InvarInfo {
                var_index: info.index,
                component_range: info.component_range.start..info.component_range.end,
                opt_components: copy_columns(&info.opt_components),
                relation_helpers: copy_helpers(&info.relation_helpers),
                unrelation_helpers: copy_unrel_helpers(&info.unrelation_helpers),
            };
            r.push(inv);
            proof {
                assert(invar_view(inv) == info_invar_view(*info));
                assert(invars_view(r@) =~= bound_infos(infos@.take(i as int), pk).push(info_invar_view(*info)));
            }
        }
        i += 1;
    }
    proof {
        assert(infos@.take(i as int) =~= infos@);
    }
    r
}

/// Writes the steps for one entry of the plan, numbered from `step`, and
/// gives the number of the step after them.
fn write_step(
    jk: JoinKind,
    step: usize,
    prefills: &[(isize, String)],
    infos: &[VarInfo],
    result: &mut String,
    append: &mut String,
) -> (next: usize)
    requires
        step + step_size(jk@) <= usize::MAX,
        plan_fits(seq![jk@], infos@),
    ensures
        final(result)@ == old(result)@ + node_decls(jk@, infos@, prefill_keys(prefills@)),
        final(append)@ == old(append)@ + node_text(jk@, step as nat, infos@, prefill_keys(prefills@)),
        next == step + step_size(jk@),
{
    let ghost iv = infos@;
    let ghost jv = jk@;
    proof {
        assert(seq![jv][0] == jv);
    }
    let mut step_count = step;
    match jk {
        JoinKind::InitInvars(init_invars) => {
            let InitInvars { invar_unequals, invar_rel_constraints, invar_unrel_constraints } = init_invars;
            let node = InvarStart {
                unequalities: invar_unequals,
                rel_constraints: invar_rel_constraints,
                unrel_constraints: invar_unrel_constraints,
                invars: collect_invars(infos, prefills),
            };
            step_count = node.generate(step_count, result, append);
        },
        JoinKind::InitVar(var) => {
            proof {
                assert(0 <= var < iv.len());
            }
            let first_info = &infos[var as usize];
            let node = ArchetypeStart {
                var,
                components: first_info.component_range.start..first_info.component_range.end,
                opt_components: copy_columns(&first_info.opt_components),
                relation_helpers: copy_helpers(&first_info.relation_helpers),
                unrelation_helpers: copy_unrel_helpers(&first_info.unrelation_helpers),
                checks: Checks { unequals: Vec::new(), rel_constraints: Vec::new(), unrel_constraints: Vec::new() },
            };
            proof {
                assert(node.checks.unequals@ =~= Seq::<(isize, isize)>::empty());
            }
            step_count = node.generate(step_count, result, append);
        },
        JoinKind::InnerJoin(new_join) => {
            let NewJoin { new, unequal_constraints, rel_constraints, unrel_constraints } = new_join;
            proof {
                assert(0 <= new < iv.len());
            }
            let new_info = &infos[new as usize];
            let helper_nr = match new_info.join_helper_index {
                Some(nr) => nr,
                None => {
                    proof {
                        assert(false);
                    }
                    0
                },
            };
            let node = RelationJoin {
                new,
                new_components: new_info.component_range.start..new_info.component_range.end,
                unequal_constraints,
                rel_constraints,
                unrel_constraints,
                opt_components: copy_columns(&new_info.opt_components),
                new_relation_helpers: copy_helpers(&new_info.relation_helpers),
                new_unrelation_helpers: copy_unrel_helpers(&new_info.unrelation_helpers),
                new_helper_nr: helper_nr,
            };
            step_count = node.generate(step_count, result, append);
        },
    }
    step_count
}

/// Writes the query's state machine after the declarations its steps need:
/// the steps in the order of the plan `join_order`, then the step that hands
/// out a row read through `accessors`.
#[verifier::spinoff_prover]
pub fn generate_resumable_query_closure(
    result: &mut String,
    vars: &[isize],
    join_order: Vec<JoinKind>,
    prefills: &[(isize, String)],
    infos: &[VarInfo],
    accessors: &[Accessor],
)
    requires
        infos@.len() == vars@.len(),
        plan_fits(results_view(join_order@), infos@),
        2 * join_order@.len() <= usize::MAX,
        accessors_have_columns(accessors_view(accessors@), infos@),
    ensures
        final(result)@ == old(result)@ + closure_text(
            results_view(join_order@),
            infos@,
            prefill_keys(prefills@),
            accessors_view(accessors@),
        ),
{
    let ghost js = results_view(join_order@);
    let ghost pk = prefill_keys(prefills@);
    let ghost iv = infos@;
    let mut append = String::new();
    append.append("\n::std::iter::from_fn(move || { loop { match current_step {");
    let ghost head = append@;
    proof {
        lemma_steps_after_bound(js);
    }
    let mut rest = join_order;
    let mut step_count: usize = 0;
    let mut k: usize = 0;
    while rest.len() > 0
        invariant
            0 <= k <= js.len(),
            js.len() <= usize::MAX,
            results_view(rest@) == js.skip(k as int),
            step_count == steps_after(js.take(k as int)),
            steps_after(js) <= usize::MAX,
            plan_fits(js, iv),
            iv == infos@,
            pk == prefill_keys(prefills@),
            result@ == old(result)@ + steps_decls(js.take(k as int), iv, pk),
            append@ == head + steps_text(js.take(k as int), iv, pk),
        decreases rest@.len(),
    {
        proof {
            assert(js.skip(k as int).len() > 0);
            assert(k < js.len());
            assert(js.take(k + 1).drop_last() =~= js.take(k as int));
            assert(js.take(k + 1).last() == js[k as int]);
            assert(results_view(rest@)[0] == js[k as int]);
            lemma_steps_after_mono(js, k + 1);
        }
        let ghost rest_before = rest@;
        let jk = rest.remove(0);
        proof {
            assert(jk@ == js[k as int]);
            assert forall|j: int| 0 <= j < rest@.len() implies #[trigger] results_view(rest@)[j] == js.skip(k + 1)[j] by {
                assert(rest@[j] == rest_before[j + 1]);
                assert(results_view(rest_before)[j + 1] == js.skip(k as int)[j + 1]);
            }
            assert(results_view(rest@) =~= js.skip(k + 1));
        }
        proof {
            assert forall|i: int| 0 <= i < 1 implies match #[trigger] seq![jk@][i] {
                JoinKindView::InitVar(v) => 0 <= v < iv.len(),
                JoinKindView::InnerJoin(new, ..) => 0 <= new < iv.len() && iv[new as int].join_helper_index is Some,
                _ => true,
            } by {
                assert(seq![jk@][i] == js[k as int]);
            }
        }
        step_count = write_step(jk, step_count, prefills, infos, result, &mut append);
        k += 1;
        proof {
            assert(result@ =~= old(result)@ + steps_decls(js.take(k as int), iv, pk));
            assert(append@ =~= head + steps_text(js.take(k as int), iv, pk));
        }
    }
    proof {
        assert(js.skip(k as int).len() == 0);
        assert(js.take(k as int) =~= js);
    }
    finish_closure(result, append, step_count, accessors, infos);
    proof {
        assert(result@ =~= old(result)@ + closure_text(js, iv, pk, accessors_view(accessors@)));
    }
}

/// Adds the step that hands out a row and the catch-all arm, then moves the
/// state machine behind the declarations.
fn finish_closure(result: &mut String, code: String, step: usize, accessors: &[Accessor], infos: &[VarInfo])
    requires
        accessors_have_columns(accessors_view(accessors@), infos@),
    ensures
        final(result)@ == old(result)@ + "\n"@ + code@ + yield_text(step, accessors_view(accessors@), infos@)
            + "\n_ => unreachable!(),\n}}})\n"@,
{
    let mut append = code;
    let yielder = YieldResult { accessors, infos };
    yielder.generate(step, result, &mut append);
    append.append("\n_ => unreachable!(),\n}}})\n");
    result.append("\n");
    result.append(append.as_str());
    proof {
        assert(result@ =~= old(result)@ + "\n"@ + (code@ + yield_text(step, accessors_view(accessors@), infos@)
            + "\n_ => unreachable!(),\n}}})\n"@));
    }
}

} // verus!
