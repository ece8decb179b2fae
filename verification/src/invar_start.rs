//! The first step of a query whose variables are bound from outside: it looks
//! up their archetypes and rows, and checks what holds between them.
use crate::generator::{columns_view, RelationHelperInfo, UnrelationHelperInfo};
use crate::generator_nodes::{
    checks_text, helper_inits, helper_set_cols, helper_set_rows, insert_checks, insert_optional_comps,
    opt_decls, opt_lookups, relation_helpers_init_and_set_col, relation_helpers_set_rows,
};
use crate::join_order::{RelationConstraint, UnrelationConstraint};
use crate::text::{decimal, push_decimal, push_isize, signed_decimal};
use std::ops::Range;
use vstd::prelude::*;
use vstd::string::StringExecFns;

verus! {

pub struct InvarInfo {
    pub var_index: isize,
    pub component_range: Range<usize>,
    /// type, index part of context variable name
    pub opt_components: Vec<(String, usize)>,
    pub relation_helpers: Vec<RelationHelperInfo>,
    /// the helper functions this step calls write relation helpers only, so
    /// these are carried, not written
    pub unrelation_helpers: Vec<UnrelationHelperInfo>,
}

pub struct InvarStart {
    pub unequalities: Vec<(isize, isize)>,
    pub rel_constraints: Vec<RelationConstraint>,
    pub unrel_constraints: Vec<UnrelationConstraint>,
    pub invars: Vec<InvarInfo>,
}

/// What the step reads of a variable bound from outside.
pub struct InvarView {
    pub var_index: isize,
    pub range: Range<usize>,
    pub opts: Seq<(Seq<char>, usize)>,
    pub helpers: Seq<RelationHelperInfo>,
}

pub open spec fn invar_view(inv: InvarInfo) -> InvarView {
    InvarView {
        var_index: inv.var_index,
        range: inv.component_range,
        opts: columns_view(inv.opt_components@),
        helpers: inv.relation_helpers@,
    }
}

pub open spec fn invars_view(invs: Seq<InvarInfo>) -> Seq<InvarView> {
    invs.map_values(|inv: InvarInfo| invar_view(inv))
}

/// Looking up the archetype and row of a variable bound from outside; the
/// query ends if the archetype lacks one of its components.
pub open spec fn invar_fill(inv: InvarView) -> Seq<char> {
    let v = signed_decimal(inv.var_index as int);
    "\n{\n    let (aid, arow) = bk.entities.get_archetype(invar_"@ + v + ");\n    let a_ref = &mut a_refs["@ + v
        + "];\n    *a_ref = &bk.archetypes[aid.as_index()];\n    if !a_ref.find_multiple_columns_fallible(&components_"@
        + v + ", &mut col_indexes["@ + decimal(inv.range.start as nat) + ".."@ + decimal(inv.range.end as nat)
        + "]) {\n        return None;\n    }\n    a_rows["@ + v + "] = arow;"@ + opt_lookups(inv.opts) + helper_set_cols(
        inv.helpers,
    ) + helper_set_rows(inv.helpers) + "\n}\n"@
}

pub open spec fn invar_fills(invs: Seq<InvarView>) -> Seq<char>
    decreases invs.len(),
{
    if invs.len() == 0 {
        Seq::empty()
    } else {
        invar_fills(invs.drop_last()) + invar_fill(invs.last())
    }
}

/// What a variable bound from outside declares before the query.
pub open spec fn invar_decl(inv: InvarView) -> Seq<char> {
    opt_decls(inv.opts) + helper_inits(inv.helpers)
}

pub open spec fn invar_decls(invs: Seq<InvarView>) -> Seq<char>
    decreases invs.len(),
{
    if invs.len() == 0 {
        Seq::empty()
    } else {
        invar_decls(invs.drop_last()) + invar_decl(invs.last())
    }
}

/// The code of the step and of the end step after it, given by plain values:
/// the query moves past the end step only where none of the checks fails.
pub open spec fn invar_text(
    step: usize,
    ue: Seq<(isize, isize)>,
    rc: Seq<RelationConstraint>,
    urc: Seq<UnrelationConstraint>,
    invs: Seq<InvarView>,
) -> Seq<char> {
    "\n"@ + decimal(step as nat) + " => {\n"@ + invar_fills(invs) + (if ue.len() > 0 || rc.len() > 0 || urc.len() > 0 {
        checks_text(ue, rc, urc) + "\n    {\n        return None;\n    } else {\n        current_step += 2;\n    }\n}"@
    } else {
        "\n    current_step += 2;\n}"@
    }) + "\n"@ + decimal((step + 1) as nat) + " => {\n    return None;\n}\n"@
}

pub open spec fn invar_start_text(s: InvarStart, step: usize) -> Seq<char> {
    invar_text(step, s.unequalities@, s.rel_constraints@, s.unrel_constraints@, invars_view(s.invars@))
}

fn push_invar_fill(prepend: &mut String, append: &mut String, inv: &InvarInfo)
    ensures
        final(append)@ == old(append)@ + invar_fill(invar_view(*inv)),
        final(prepend)@ == old(prepend)@ + invar_decl(invar_view(*inv)),
{
    let var_index = inv.var_index;
    append.append("\n{\n    let (aid, arow) = bk.entities.get_archetype(invar_");
    push_isize(append, var_index);
    append.append(");\n    let a_ref = &mut a_refs[");
    push_isize(append, var_index);
    append.append("];\n    *a_ref = &bk.archetypes[aid.as_index()];\n    if !a_ref.find_multiple_columns_fallible(&components_");
    push_isize(append, var_index);
    append.append(", &mut col_indexes[");
    push_decimal(append, inv.component_range.start);
    append.append("..");
    push_decimal(append, inv.component_range.end);
    append.append("]) {\n        return None;\n    }\n    a_rows[");
    push_isize(append, var_index);
    append.append("] = arow;");
    insert_optional_comps(prepend, append, inv.opt_components.as_slice());
    relation_helpers_init_and_set_col(prepend, append, inv.relation_helpers.as_slice());
    relation_helpers_set_rows(append, inv.relation_helpers.as_slice());
    append.append("\n}\n");
    proof {
        assert(append@ =~= old(append)@ + invar_fill(invar_view(*inv)));
        assert(prepend@ =~= old(prepend)@ + invar_decl(invar_view(*inv)));
    }
}

impl InvarStart {
    fn generate_invar_archetype_fill(&self, prepend: &mut String, append: &mut String)
        ensures
            final(append)@ == old(append)@ + invar_fills(invars_view(self.invars@)),
            final(prepend)@ == old(prepend)@ + invar_decls(invars_view(self.invars@)),
    {
        let mut i: usize = 0;
        while i < self.invars.len()
            invariant
                0 <= i <= self.invars@.len(),
                append@ == old(append)@ + invar_fills(invars_view(self.invars@).take(i as int)),
                prepend@ == old(prepend)@ + invar_decls(invars_view(self.invars@).take(i as int)),
            decreases self.invars@.len() - i,
        {
            proof {
                let vs = invars_view(self.invars@);
                assert(vs.take(i + 1).drop_last() =~= vs.take(i as int));
                assert(vs.take(i + 1).last() == invar_view(self.invars@[i as int]));
            }
            push_invar_fill(prepend, append, &self.invars[i]);
            i += 1;
            proof {
                assert(append@ =~= old(append)@ + invar_fills(invars_view(self.invars@).take(i as int)));
                assert(prepend@ =~= old(prepend)@ + invar_decls(invars_view(self.invars@).take(i as int)));
            }
        }
        proof {
            assert(invars_view(self.invars@).take(i as int) =~= invars_view(self.invars@));
        }
    }

    /// Writes the step at number `step` and the end step after it, and gives
    /// the number of the step after both.
    pub fn generate(&self, step: usize, prepend: &mut String, append: &mut String) -> (next: usize)
        requires
            step + 2 <= usize::MAX,
        ensures
            final(append)@ == old(append)@ + invar_start_text(*self, step),
            final(prepend)@ == old(prepend)@ + invar_decls(invars_view(self.invars@)),
            next == step + 2,
    {
        append.append("\n");
        push_decimal(append, step);
        append.append(" => {\n");
        self.generate_invar_archetype_fill(prepend, append);
        let ghost a1 = append@;
        if self.unequalities.len() == 0 && self.rel_constraints.len() == 0 && self.unrel_constraints.len() == 0 {
            append.append("\n    current_step += 2;\n}");
        } else {
            insert_checks(
                append,
                self.unequalities.as_slice(),
                self.rel_constraints.as_slice(),
                self.unrel_constraints.as_slice(),
            );
            append.append("\n    {\n        return None;\n    } else {\n        current_step += 2;\n    }\n}");
            proof {
                assert(append@ =~= a1 + (checks_text(self.unequalities@, self.rel_constraints@, self.unrel_constraints@)
                    + "\n    {\n        return None;\n    } else {\n        current_step += 2;\n    }\n}"@));
            }
        }
        let next_step = step + 1;
        append.append("\n");
        push_decimal(append, next_step);
        append.append(" => {\n    return None;\n}\n");
        proof {
            assert(append@ =~= old(append)@ + invar_start_text(*self, step));
        }
        step + 2
    }
}

} // verus!
