//! The code of a whole query: from the description a generator holds to the
//! block that evaluates to the iterator over the query's rows.
use crate::generator::{
    column_count, comp_types, comps_view, compute_var_infos, first_column, fresh_info, fsm_context_text,
    generate_archetype_sets, generate_fsm_context, laid_out, numbered, opts_view, related_view, rels_view, VarInfo,
    archetype_sets_text,
};
use crate::generator_nodes::{accessors_have_columns, accessors_view, component_column};
use crate::invar_captures::{generate_invar_captures, invar_captures_text};
use crate::join_order::{
    compute_join_order, lemma_plan_binds_each_var_once, lemma_plan_joins_have_helpers, lemma_plan_steps_bind, plan, plan_input, plans_view, prefill_keys, results_view, unrels_view,
    InfoPlan, JoinKindView, PlanInput, PlanState,
};
use crate::query_closure::{closure_text, generate_resumable_query_closure, plan_fits};
use crate::query_terms::{keys_distinct, AccessorView, Generator};
use vstd::prelude::*;
use vstd::string::StringExecFns;

verus! {

/// What the planner reads of the variable infos before any join is planned.
pub open spec fn fresh_input(
    vars: Seq<isize>,
    cs: Seq<(Seq<char>, isize)>,
    rs: Seq<(Seq<char>, isize, isize)>,
) -> PlanInput {
    PlanInput {
        indices: vars,
        related: Seq::new(
            vars.len(),
            |k: int|
                {
                    let b = first_column(vars, k, cs, rs);
                    let v = vars[k];
                    crate::generator::numbered_rels(
                        crate::generator::rels_from(rs, v),
                        (b + comp_types(cs, v).len()) as int,
                    ) + crate::generator::numbered_rels(
                        crate::generator::rels_to(rs, v),
                        (b + comp_types(cs, v).len() + crate::generator::rels_from(rs, v).len()) as int,
                    )
                },
        ),
        starts: Seq::new(vars.len(), |k: int| first_column(vars, k, cs, rs) as usize),
        widths: Seq::new(vars.len(), |k: int| column_count(cs, rs, vars[k]) as int),
    }
}

/// No variable has a rank, a helper or a join helper yet.
pub open spec fn fresh_plans(n: nat) -> Seq<InfoPlan> {
    Seq::new(
        n,
        |k: int| InfoPlan { rank: None, rel_helpers: Seq::empty(), unrel_helpers: Seq::empty(), join_helper: None },
    )
}

/// The plan of the query `g` describes.
pub open spec fn query_plan(g: Generator) -> PlanState {
    plan(
        fresh_input(g.vars@, comps_view(g.components@), rels_view(g.relations@)),
        fresh_plans(g.vars@.len()),
        prefill_keys(g.prefills@),
        rels_view(g.relations@),
        g.unequals@,
        unrels_view(g.unrelations@),
    )
}

/// The columns of variable number `k` are where the variable infos put them.
pub open spec fn fresh_columns(g: Generator, k: int) -> Seq<(Seq<char>, usize)> {
    let cs = comps_view(g.components@);
    let rs = rels_view(g.relations@);
    numbered(comp_types(cs, g.vars@[k]), first_column(g.vars@, k, cs, rs) as int)
}

/// Every component an accessor reads belongs to a variable that has it.
pub open spec fn accessors_fit(g: Generator) -> bool {
    let accs = accessors_view(g.accessors@);
    forall|i: int|
        0 <= i < accs.len() ==> match #[trigger] accs[i] {
            AccessorView::Component(ty, var) => 0 <= var < g.vars@.len() && component_column(
                fresh_columns(g, var as int),
                ty,
            ) is Some,
            AccessorView::ComponentMut(ty, var) => 0 <= var < g.vars@.len() && component_column(
                fresh_columns(g, var as int),
                ty,
            ) is Some,
            _ => true,
        }
}

/// The variable infos after planning: laid out as before, with what the plan gave them.
pub open spec fn planned_infos(g: Generator, infos: Seq<VarInfo>) -> bool {
    &&& infos.len() == g.vars@.len()
    &&& forall|k: int|
        0 <= k < infos.len() ==> #[trigger] laid_out(
            infos[k],
            g.vars@,
            k,
            comps_view(g.components@),
            rels_view(g.relations@),
            opts_view(g.opt_components@),
        )
    &&& plans_view(infos) == query_plan(g).infos
}

/// The code of the query, reading its world from `world`, with `infos` the
/// variable infos after planning.
pub open spec fn query_text(g: Generator, world: Seq<char>, infos: Seq<VarInfo>) -> Seq<char> {
    let pk = prefill_keys(g.prefills@);
    "{\n"@ + invar_captures_text(g.prefills@) + "\nlet world: &World = &"@ + world
        + ";\nlet bk = &world.bookkeeping;\n"@ + archetype_sets_text(
        g.vars@,
        pk,
        comps_view(g.components@),
        rels_view(g.relations@),
        comps_view(g.uncomponents@),
        unrels_view(g.unrelations@),
    ) + fsm_context_text(g.vars@.len(), (g.components@.len() + 2 * g.relations@.len()) as nat) + closure_text(
        query_plan(g).result,
        infos,
        pk,
        accessors_view(g.accessors@),
    ) + "\n}"@
}

proof fn lemma_fresh_input(g: Generator, infos: Seq<VarInfo>)
    requires
        infos.len() == g.vars@.len(),
        forall|k: int|
            0 <= k < infos.len() ==> #[trigger] fresh_info(
                infos[k],
                g.vars@,
                k,
                comps_view(g.components@),
                rels_view(g.relations@),
                opts_view(g.opt_components@),
            ),
    ensures
        plan_input(infos) == fresh_input(g.vars@, comps_view(g.components@), rels_view(g.relations@)),
        plans_view(infos) == fresh_plans(g.vars@.len()),
{
    let cs = comps_view(g.components@);
    let rs = rels_view(g.relations@);
    let os = opts_view(g.opt_components@);
    let fi = fresh_input(g.vars@, cs, rs);
    let pi = plan_input(infos);
    assert forall|k: int| 0 <= k < infos.len() implies #[trigger] pi.related[k] == fi.related[k] by {
        assert(fresh_info(infos[k], g.vars@, k, cs, rs, os));
        assert(pi.related[k] =~= related_view(infos[k].related_with@));
    }
    assert forall|k: int| 0 <= k < infos.len() implies #[trigger] pi.starts[k] == fi.starts[k] by {
        assert(fresh_info(infos[k], g.vars@, k, cs, rs, os));
    }
    assert forall|k: int| 0 <= k < infos.len() implies #[trigger] pi.widths[k] == fi.widths[k] by {
        assert(fresh_info(infos[k], g.vars@, k, cs, rs, os));
    }
    assert forall|k: int| 0 <= k < infos.len() implies #[trigger] pi.indices[k] == fi.indices[k] by {
        assert(fresh_info(infos[k], g.vars@, k, cs, rs, os));
    }
    assert(pi.related =~= fi.related);
    assert(pi.starts =~= fi.starts);
    assert(pi.widths =~= fi.widths);
    assert(pi.indices =~= fi.indices);
    assert forall|k: int| 0 <= k < infos.len() implies #[trigger] plans_view(infos)[k] == fresh_plans(
        g.vars@.len(),
    )[k] by {
        assert(fresh_info(infos[k], g.vars@, k, cs, rs, os));
        assert(infos[k].relation_helpers@ =~= Seq::<crate::generator::RelationHelperInfo>::empty());
        assert(plans_view(infos)[k].unrel_helpers =~= Seq::<crate::join_order::UnrelHelperView>::empty());
    }
    assert(plans_view(infos) =~= fresh_plans(g.vars@.len()));
}

impl Generator {
    /// The code of the query, reading its world from the expression `world`:
    /// the captures of the variables bound from outside, the archetype sets,
    /// the state of the state machine and the state machine itself.
    pub fn generate(&self, world: &str) -> (r: String)
        requires
            keys_distinct(self.prefills@),
            self.components@.len() + self.relations@.len() != 0,
            self.vars@.len() != 0,
            self.vars@.len() * (self.components@.len() + 2 * self.relations@.len()) <= usize::MAX,
            self.vars@.len() <= isize::MAX,
            query_plan(*self).ok,
            forall|k: int| 0 <= k < self.vars@.len() ==> self.vars@[k] == k,
            accessors_fit(*self),
        ensures
            exists|infos: Seq<VarInfo>| planned_infos(*self, infos) && r@ == query_text(*self, world@, infos),
    {
        proof {
            let n = self.vars@.len() as int;
            let m = self.components@.len() + 2 * self.relations@.len();
            assert(m <= n * m) by (nonlinear_arith)
                requires
                    n >= 1,
                    m >= 0,
            ;
        }
        let mut result = String::new();
        result.append("{\n");
        generate_invar_captures(&mut result, self.prefills.as_slice());
        result.append("\nlet world: &World = &");
        result.append(world);
        result.append(";\nlet bk = &world.bookkeeping;\n");
        let mut infos = compute_var_infos(
            self.vars.as_slice(),
            self.components.as_slice(),
            self.relations.as_slice(),
            self.opt_components.as_slice(),
        );
        let ghost fresh = infos@;
        proof {
            lemma_fresh_input(*self, fresh);
            assert forall|v: int| 0 <= v < fresh_plans(self.vars@.len()).len() implies (#[trigger] fresh_plans(
                self.vars@.len(),
            )[v]).rank is None by {}
            lemma_plan_joins_have_helpers(
                fresh_input(self.vars@, comps_view(self.components@), rels_view(self.relations@)),
                fresh_plans(self.vars@.len()),
                prefill_keys(self.prefills@),
                rels_view(self.relations@),
                self.unequals@,
                unrels_view(self.unrelations@),
            );
            lemma_plan_binds_each_var_once(
                fresh_input(self.vars@, comps_view(self.components@), rels_view(self.relations@)),
                fresh_plans(self.vars@.len()),
                prefill_keys(self.prefills@),
                rels_view(self.relations@),
                self.unequals@,
                unrels_view(self.unrelations@),
            );
            lemma_plan_steps_bind(
                fresh_input(self.vars@, comps_view(self.components@), rels_view(self.relations@)),
                fresh_plans(self.vars@.len()),
                prefill_keys(self.prefills@),
                rels_view(self.relations@),
                self.unequals@,
                unrels_view(self.unrelations@),
            );
        }
        let join_order = compute_join_order(
            self.relations.as_slice(),
            &mut infos,
            self.prefills.as_slice(),
            self.unequals.as_slice(),
            self.unrelations.as_slice(),
        );
        let ghost iv = infos@;
        let ghost cs = comps_view(self.components@);
        let ghost rs = rels_view(self.relations@);
        let ghost os = opts_view(self.opt_components@);
        proof {
            assert forall|k: int| 0 <= k < iv.len() implies #[trigger] laid_out(iv[k], self.vars@, k, cs, rs, os) by {
                assert(fresh_info(fresh[k], self.vars@, k, cs, rs, os));
                assert(iv[k].index == fresh[k].index);
            }
            assert(planned_infos(*self, iv));
            let js = results_view(join_order@);
            assert forall|i: int| 0 <= i < js.len() implies match #[trigger] js[i] {
                JoinKindView::InitVar(v) => 0 <= v < iv.len(),
                JoinKindView::InnerJoin(new, ..) => 0 <= new < iv.len() && iv[new as int].join_helper_index is Some,
                _ => true,
            } by {
                assert(js[i] == query_plan(*self).result[i]);
                assert(plans_view(iv).len() == query_plan(*self).infos.len());
                if let JoinKindView::InnerJoin(new, ..) = js[i] {
                    assert(plans_view(iv)[new as int] == query_plan(*self).infos[new as int]);
                }
            }
            assert(plan_fits(js, iv));
            let accs = accessors_view(self.accessors@);
            assert forall|i: int| 0 <= i < accs.len() implies match #[trigger] accs[i] {
                AccessorView::Component(ty, var) => 0 <= var < iv.len()
                    && crate::generator_nodes::accessor_column(iv, var, ty) is Some,
                AccessorView::ComponentMut(ty, var) => 0 <= var < iv.len()
                    && crate::generator_nodes::accessor_column(iv, var, ty) is Some,
                _ => true,
            } by {
                match accs[i] {
                    AccessorView::Component(ty, var) => {
                        assert(laid_out(iv[var as int], self.vars@, var as int, cs, rs, os));
                    },
                    AccessorView::ComponentMut(ty, var) => {
                        assert(laid_out(iv[var as int], self.vars@, var as int, cs, rs, os));
                    },
                    _ => {},
                }
            }
            assert(accessors_have_columns(accs, iv));
        }
        generate_archetype_sets(
            &mut result,
            self.vars.as_slice(),
            self.prefills.as_slice(),
            self.components.as_slice(),
            self.relations.as_slice(),
            self.uncomponents.as_slice(),
            self.unrelations.as_slice(),
        );
        generate_fsm_context(&mut result, self.vars.as_slice(), self.components.as_slice(), self.relations.as_slice());
        generate_resumable_query_closure(
            &mut result,
            self.vars.as_slice(),
            join_order,
            self.prefills.as_slice(),
            infos.as_slice(),
            self.accessors.as_slice(),
        );
        result.append("\n}");
        proof {
            assert(result@ =~= query_text(*self, world@, iv));
        }
        result
    }
}

} // verus!
