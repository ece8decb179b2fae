//! The step that binds a variable by following a relation from a variable
//! bound before it.
use crate::generator::{columns_view, RelationHelperInfo, UnrelationHelperInfo};
use crate::generator_nodes::{
    checks_text, helper_inits, helper_set_cols, helper_set_rows, insert_checks, insert_optional_comps,
    opt_decls, opt_lookups, relation_helpers_init_and_set_col, relation_helpers_set_rows,
};
use crate::join_order::{RelationConstraint, UnrelationConstraint};
use crate::text::{decimal, push_decimal, push_isize, signed_decimal};
use std::ops::Range;
use vstd::prelude::*;
use vstd::string::StringExecFns;

verus! {

pub struct RelationJoin {
    /// the variable this step binds
    pub new: isize,
    pub new_components: Range<usize>,
    pub unequal_constraints: Vec<(isize, isize)>,
    /// RelationHelpers that constrain the new var
    pub rel_constraints: Vec<RelationConstraint>,
    /// UnrelationHelpers that constrain the new var
    pub unrel_constraints: Vec<UnrelationConstraint>,
    pub opt_components: Vec<(String, usize)>,
    /// RelationHelpers that depend on the new var
    pub new_relation_helpers: Vec<RelationHelperInfo>,
    /// UnrelationHelpers that depend on the new var; the helper functions this
    /// step calls write relation helpers only, so these are carried, not written
    pub new_unrelation_helpers: Vec<UnrelationHelperInfo>,
    /// the relationhelper that contains the Relation(old, new)
    pub new_helper_nr: usize,
}

/// The head of the step: take the next related entity and, if its archetype
/// is one the new variable may have, bind the variable to it.
pub open spec fn join_head(step: usize, new: isize, start: usize, end: usize, helper_nr: usize) -> Seq<char> {
    "\n// follow relation\n"@ + decimal(step as nat) + " => {\n    const REL_VAR: usize = "@ + signed_decimal(new as int)
        + ";\n    const REL_VAR_COMPONENTS: ::std::ops::Range<usize> = "@ + decimal(start as nat) + ".."@ + decimal(
        end as nat,
    ) + ";\n    if let Some(id) = rel_helper_"@ + decimal(helper_nr as nat)
        + ".next_related() {\n        // get aid/row for entity in relation\n        let (aid, arow) = bk.entities.get_archetype_unchecked(id);\n\n        // if in target archetype set => go to next step\n        if archetype_id_sets[REL_VAR].contains(&aid) {\n            let a_ref = &mut a_refs[REL_VAR];\n            *a_ref = &bk.archetypes[aid.as_index()];\n            a_ref.find_multiple_columns(\n                &components_"@
        + signed_decimal(new as int) + ",\n                &mut col_indexes[REL_VAR_COMPONENTS],\n            );\n            a_rows[REL_VAR] = arow;\n"@
}

/// What binding the new variable sets up: its optional columns and the
/// relation helpers that start from it.
pub open spec fn join_setup(opts: Seq<(Seq<char>, usize)>, hs: Seq<RelationHelperInfo>) -> Seq<char> {
    opt_lookups(opts) + helper_set_cols(hs) + helper_set_rows(hs)
}

/// The code of a step that binds variable `new` by following a relation,
/// given by plain values: without checks the step moves on at once, with
/// checks it moves on only where none of them fails.
pub open spec fn join_text(
    step: usize,
    new: isize,
    range: Range<usize>,
    ue: Seq<(isize, isize)>,
    rc: Seq<RelationConstraint>,
    urc: Seq<UnrelationConstraint>,
    opts: Seq<(Seq<char>, usize)>,
    hs: Seq<RelationHelperInfo>,
    helper_nr: usize,
) -> Seq<char> {
    join_head(step, new, range.start, range.end, helper_nr) + (if ue.len() > 0 || rc.len() > 0 || urc.len() > 0 {
        checks_text(ue, rc, urc) + "\n            {\n            } else {"@ + join_setup(opts, hs)
            + "\n                current_step += 1;\n            }"@
    } else {
        join_setup(opts, hs) + "\n            current_step += 1;"@
    }) + "\n        }\n    } else {\n        current_step -= 1;\n    }\n}\n"@
}

/// What such a step declares before the query.
pub open spec fn join_decls(opts: Seq<(Seq<char>, usize)>, hs: Seq<RelationHelperInfo>) -> Seq<char> {
    opt_decls(opts) + helper_inits(hs)
}

pub open spec fn relation_join_text(j: RelationJoin, step: usize) -> Seq<char> {
    join_text(
        step,
        j.new,
        j.new_components,
        j.unequal_constraints@,
        j.rel_constraints@,
        j.unrel_constraints@,
        columns_view(j.opt_components@),
        j.new_relation_helpers@,
        j.new_helper_nr,
    )
}

pub open spec fn relation_join_decls(j: RelationJoin) -> Seq<char> {
    join_decls(columns_view(j.opt_components@), j.new_relation_helpers@)
}

fn push_join_head(append: &mut String, step: usize, new: isize, start: usize, end: usize, helper_nr: usize)
    ensures
        final(append)@ == old(append)@ + join_head(step, new, start, end, helper_nr),
{
    append.append("\n// follow relation\n");
    push_decimal(append, step);
    append.append(" => {\n    const REL_VAR: usize = ");
    push_isize(append, new);
    append.append(";\n    const REL_VAR_COMPONENTS: ::std::ops::Range<usize> = ");
    push_decimal(append, start);
    append.append("..");
    push_decimal(append, end);
    append.append(";\n    if let Some(id) = rel_helper_");
    push_decimal(append, helper_nr);
    append.append(
        ".next_related() {\n        // get aid/row for entity in relation\n        let (aid, arow) = bk.entities.get_archetype_unchecked(id);\n\n        // if in target archetype set => go to next step\n        if archetype_id_sets[REL_VAR].contains(&aid) {\n            let a_ref = &mut a_refs[REL_VAR];\n            *a_ref = &bk.archetypes[aid.as_index()];\n            a_ref.find_multiple_columns(\n                &components_",
    );
    push_isize(append, new);
    append.append(",\n                &mut col_indexes[REL_VAR_COMPONENTS],\n            );\n            a_rows[REL_VAR] = arow;\n");
    proof {
        assert(append@ =~= old(append)@ + join_head(step, new, start, end, helper_nr));
    }
}

impl RelationJoin {
    fn push_setup(&self, prepend: &mut String, append: &mut String)
        ensures
            final(prepend)@ == old(prepend)@ + relation_join_decls(*self),
            final(append)@ == old(append)@ + join_setup(columns_view(self.opt_components@), self.new_relation_helpers@),
    {
        insert_optional_comps(prepend, append, self.opt_components.as_slice());
        relation_helpers_init_and_set_col(prepend, append, self.new_relation_helpers.as_slice());
        relation_helpers_set_rows(append, self.new_relation_helpers.as_slice());
        proof {
            assert(prepend@ =~= old(prepend)@ + relation_join_decls(*self));
            assert(append@ =~= old(append)@ + join_setup(columns_view(self.opt_components@), self.new_relation_helpers@));
        }
    }

    /// Writes the step at number `step` and gives the number of the next one.
    pub fn generate(&self, step: usize, prepend: &mut String, append: &mut String) -> (next: usize)
        requires
            step < usize::MAX,
        ensures
            final(append)@ == old(append)@ + relation_join_text(*self, step),
            final(prepend)@ == old(prepend)@ + relation_join_decls(*self),
            next == step + 1,
    {
        push_join_head(
            append,
            step,
            self.new,
            self.new_components.start,
            self.new_components.end,
            self.new_helper_nr,
        );
        let ghost head = append@;
        if self.unequal_constraints.len() == 0 && self.rel_constraints.len() == 0 && self.unrel_constraints.len()
            == 0 {
            self.push_setup(prepend, append);
            append.append("\n            current_step += 1;");
            proof {
                assert(append@ =~= head + (join_setup(columns_view(self.opt_components@), self.new_relation_helpers@) + "\n            current_step += 1;"@));
            }
        } else {
            insert_checks(
                append,
                self.unequal_constraints.as_slice(),
                self.rel_constraints.as_slice(),
                self.unrel_constraints.as_slice(),
            );
            append.append("\n            {\n            } else {");
            self.push_setup(prepend, append);
            append.append("\n                current_step += 1;\n            }");
            proof {
                assert(append@ =~= head + (checks_text(
                    self.unequal_constraints@,
                    self.rel_constraints@,
                    self.unrel_constraints@,
                ) + "\n            {\n            } else {"@ + join_setup(columns_view(self.opt_components@), self.new_relation_helpers@)
                    + "\n                current_step += 1;\n            }"@));
            }
        }
        append.append("\n        }\n    } else {\n        current_step -= 1;\n    }\n}\n");
        proof {
            assert(append@ =~= old(append)@ + relation_join_text(*self, step));
        }
        step + 1
    }
}

} // verus!
