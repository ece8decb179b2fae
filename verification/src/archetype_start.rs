//! The two steps that bind the first variable of a query: one walks the
//! archetypes the variable may have, the other the rows of the current one.
use crate::generator::{columns_view, RelationHelperInfo, UnrelationHelperInfo};
use crate::generator_nodes::{
    checks_text, helper_inits, helper_set_cols, helper_set_rows, insert_checks, insert_optional_comps,
    opt_decls, opt_lookups, relation_helpers_init_and_set_col, relation_helpers_set_rows,
};
use crate::join_order::{RelationConstraint, UnrelationConstraint};
use crate::text::{decimal, push_decimal, push_isize, signed_decimal};
use std::ops::Range;
use vstd::prelude::*;
use vstd::string::StringExecFns;

verus! {

/// The checks placed at a step.
pub struct Checks {
    pub unequals: Vec<(isize, isize)>,
    pub rel_constraints: Vec<RelationConstraint>,
    pub unrel_constraints: Vec<UnrelationConstraint>,
}

impl Checks {
    pub open spec fn spec_is_empty(&self) -> bool {
        self.unequals@.len() == 0 && self.rel_constraints@.len() == 0 && self.unrel_constraints@.len() == 0
    }

    /// There is nothing to check.
    pub fn is_empty(&self) -> (r: bool)
        ensures
            r == self.spec_is_empty(),
    {
        self.unequals.len() == 0 && self.rel_constraints.len() == 0 && self.unrel_constraints.len() == 0
    }
}

pub struct ArchetypeStart {
    pub var: isize,
    pub components: Range<usize>,
    pub opt_components: Vec<(String, usize)>,
    pub relation_helpers: Vec<RelationHelperInfo>,
    /// the helper functions this step calls write relation helpers only, so
    /// these are carried, not written
    pub unrelation_helpers: Vec<UnrelationHelperInfo>,
    pub checks: Checks,
}

/// Moving on to the next archetype of the variable and looking up its columns.
pub open spec fn next_archetype_head(step: usize, first: isize, start: usize, end: usize) -> Seq<char> {
    "\n"@ + decimal(step as nat) + " => {\n    const CURRENT_VAR: usize = "@ + signed_decimal(first as int)
        + ";\n    const CURRENT_VAR_COMPONENTS: ::std::ops::Range<usize> = "@ + decimal(start as nat) + ".."@ + decimal(
        end as nat,
    )
        + ";\n    let next_index = &mut a_next_indexes[CURRENT_VAR];\n    let archetype_ids = &archetype_id_sets[CURRENT_VAR];\n    *next_index = next_index.wrapping_add(1);\n    if *next_index >= archetype_ids.len() {\n        return None;\n    }\n    let next_id = archetype_ids[*next_index];\n\n    // gets rolled over to 0 by wrapping_add\n    a_rows[CURRENT_VAR] = ArchetypeRow(u32::MAX);\n    let a_ref = &mut a_refs[CURRENT_VAR];\n    *a_ref = &bk.archetypes[next_id.as_index()];\n    a_ref.find_multiple_columns(\n        &components_"@
        + signed_decimal(first as int)
        + ",\n        &mut col_indexes[CURRENT_VAR_COMPONENTS],\n    );\n    a_max_rows[CURRENT_VAR] = a_ref.entities.len() as u32;"@
}

/// Moving on to the next row of the current archetype.
pub open spec fn next_row_head(next_step: nat, first: isize) -> Seq<char> {
    "\n// next row in archetype\n"@ + decimal(next_step) + " => {\n    const CURRENT_VAR: usize = "@ + signed_decimal(
        first as int,
    )
        + ";\n    let row_counter = &mut a_rows[CURRENT_VAR].0;\n    let max_row = a_max_rows[CURRENT_VAR];\n    // rolls over to 0 for u32::MAX, which is our start value\n    *row_counter = row_counter.wrapping_add(1);\n\n    if *row_counter >= max_row {\n        current_step -= 1;\n    } else {"@
}

/// The step that moves on to the next archetype of variable `var`.
pub open spec fn archetype_step(
    step: usize,
    var: isize,
    range: Range<usize>,
    opts: Seq<(Seq<char>, usize)>,
    hs: Seq<RelationHelperInfo>,
) -> Seq<char> {
    next_archetype_head(step, var, range.start, range.end) + opt_lookups(opts) + helper_set_cols(hs)
        + "\n    current_step += 1;\n}\n"@
}

/// The step that moves on to the next row: without checks it moves on at
/// once, with checks only where none of them fails.
pub open spec fn row_step(
    next_step: nat,
    var: isize,
    hs: Seq<RelationHelperInfo>,
    ue: Seq<(isize, isize)>,
    rc: Seq<RelationConstraint>,
    urc: Seq<UnrelationConstraint>,
) -> Seq<char> {
    next_row_head(next_step, var) + (if ue.len() == 0 && rc.len() == 0 && urc.len() == 0 {
        helper_set_rows(hs) + "\n        current_step += 1;"@
    } else {
        "\n        let id = a_refs[CURRENT_VAR].entities[a_rows[CURRENT_VAR].as_index()];"@ + checks_text(ue, rc, urc)
            + "\n        {} else {"@ + helper_set_rows(hs) + "\n            current_step += 1;\n        }"@
    }) + "\n    }\n}\n"@
}

/// The code of the two steps that bind the first variable, given by plain values.
pub open spec fn start_text(
    step: usize,
    var: isize,
    range: Range<usize>,
    opts: Seq<(Seq<char>, usize)>,
    hs: Seq<RelationHelperInfo>,
    ue: Seq<(isize, isize)>,
    rc: Seq<RelationConstraint>,
    urc: Seq<UnrelationConstraint>,
) -> Seq<char> {
    archetype_step(step, var, range, opts, hs) + row_step((step + 1) as nat, var, hs, ue, rc, urc)
}

/// What the two steps declare before the query.
pub open spec fn start_decls(opts: Seq<(Seq<char>, usize)>, hs: Seq<RelationHelperInfo>) -> Seq<char> {
    opt_decls(opts) + helper_inits(hs)
}

pub open spec fn archetype_step_text(s: ArchetypeStart, step: usize) -> Seq<char> {
    archetype_step(step, s.var, s.components, columns_view(s.opt_components@), s.relation_helpers@)
}

pub open spec fn row_step_text(s: ArchetypeStart, next_step: nat) -> Seq<char> {
    row_step(
        next_step,
        s.var,
        s.relation_helpers@,
        s.checks.unequals@,
        s.checks.rel_constraints@,
        s.checks.unrel_constraints@,
    )
}

pub open spec fn archetype_start_text(s: ArchetypeStart, step: usize) -> Seq<char> {
    start_text(
        step,
        s.var,
        s.components,
        columns_view(s.opt_components@),
        s.relation_helpers@,
        s.checks.unequals@,
        s.checks.rel_constraints@,
        s.checks.unrel_constraints@,
    )
}

pub open spec fn archetype_start_decls(s: ArchetypeStart) -> Seq<char> {
    start_decls(columns_view(s.opt_components@), s.relation_helpers@)
}

fn push_next_archetype_head(append: &mut String, step: usize, first: isize, start: usize, end: usize)
    ensures
        final(append)@ == old(append)@ + next_archetype_head(step, first, start, end),
{
    append.append("\n");
    push_decimal(append, step);
    append.append(" => {\n    const CURRENT_VAR: usize = ");
    push_isize(append, first);
    append.append(";\n    const CURRENT_VAR_COMPONENTS: ::std::ops::Range<usize> = ");
    push_decimal(append, start);
    append.append("..");
    push_decimal(append, end);
    append.append(
        ";\n    let next_index = &mut a_next_indexes[CURRENT_VAR];\n    let archetype_ids = &archetype_id_sets[CURRENT_VAR];\n    *next_index = next_index.wrapping_add(1);\n    if *next_index >= archetype_ids.len() {\n        return None;\n    }\n    let next_id = archetype_ids[*next_index];\n\n    // gets rolled over to 0 by wrapping_add\n    a_rows[CURRENT_VAR] = ArchetypeRow(u32::MAX);\n    let a_ref = &mut a_refs[CURRENT_VAR];\n    *a_ref = &bk.archetypes[next_id.as_index()];\n    a_ref.find_multiple_columns(\n        &components_",
    );
    push_isize(append, first);
    append.append(",\n        &mut col_indexes[CURRENT_VAR_COMPONENTS],\n    );\n    a_max_rows[CURRENT_VAR] = a_ref.entities.len() as u32;");
    proof {
        assert(append@ =~= old(append)@ + next_archetype_head(step, first, start, end));
    }
}

fn push_next_row_head(append: &mut String, next_step: usize, first: isize)
    ensures
        final(append)@ == old(append)@ + next_row_head(next_step as nat, first),
{
    append.append("\n// next row in archetype\n");
    push_decimal(append, next_step);
    append.append(" => {\n    const CURRENT_VAR: usize = ");
    push_isize(append, first);
    append.append(
        ";\n    let row_counter = &mut a_rows[CURRENT_VAR].0;\n    let max_row = a_max_rows[CURRENT_VAR];\n    // rolls over to 0 for u32::MAX, which is our start value\n    *row_counter = row_counter.wrapping_add(1);\n\n    if *row_counter >= max_row {\n        current_step -= 1;\n    } else {",
    );
    proof {
        assert(append@ =~= old(append)@ + next_row_head(next_step as nat, first));
    }
}

impl ArchetypeStart {
    fn push_archetype_step(&self, step: usize, prepend: &mut String, append: &mut String)
        ensures
            final(append)@ == old(append)@ + archetype_step_text(*self, step),
            final(prepend)@ == old(prepend)@ + archetype_start_decls(*self),
    {
        push_next_archetype_head(append, step, self.var, self.components.start, self.components.end);
        insert_optional_comps(prepend, append, self.opt_components.as_slice());
        relation_helpers_init_and_set_col(prepend, append, self.relation_helpers.as_slice());
        append.append("\n    current_step += 1;\n}\n");
        proof {
            assert(append@ =~= old(append)@ + archetype_step_text(*self, step));
            assert(prepend@ =~= old(prepend)@ + archetype_start_decls(*self));
        }
    }

    fn push_row_step(&self, next_step: usize, append: &mut String)
        ensures
            final(append)@ == old(append)@ + row_step_text(*self, next_step as nat),
    {
        push_next_row_head(append, next_step, self.var);
        let ghost a2 = append@;
        if self.checks.is_empty() {
            relation_helpers_set_rows(append, self.relation_helpers.as_slice());
            append.append("\n        current_step += 1;");
            proof {
                assert(append@ =~= a2 + (helper_set_rows(self.relation_helpers@) + "\n        current_step += 1;"@));
            }
        } else {
            append.append("\n        let id = a_refs[CURRENT_VAR].entities[a_rows[CURRENT_VAR].as_index()];");
            insert_checks(
                append,
                self.checks.unequals.as_slice(),
                self.checks.rel_constraints.as_slice(),
                self.checks.unrel_constraints.as_slice(),
            );
            append.append("\n        {} else {");
            relation_helpers_set_rows(append, self.relation_helpers.as_slice());
            append.append("\n            current_step += 1;\n        }");
            proof {
                assert(append@ =~= a2 + ("\n        let id = a_refs[CURRENT_VAR].entities[a_rows[CURRENT_VAR].as_index()];"@
                    + checks_text(self.checks.unequals@, self.checks.rel_constraints@, self.checks.unrel_constraints@)
                    + "\n        {} else {"@ + helper_set_rows(self.relation_helpers@)
                    + "\n            current_step += 1;\n        }"@));
            }
        }
        append.append("\n    }\n}\n");
        proof {
            assert(append@ =~= old(append)@ + row_step_text(*self, next_step as nat));
        }
    }

    /// Writes the two steps, the first at number `step`, and gives the number
    /// of the step after them.
    pub fn generate(&self, step: usize, prepend: &mut String, append: &mut String) -> (next: usize)
        requires
            step + 2 <= usize::MAX,
        ensures
            final(append)@ == old(append)@ + archetype_start_text(*self, step),
            final(prepend)@ == old(prepend)@ + archetype_start_decls(*self),
            next == step + 2,
    {
        self.push_archetype_step(step, prepend, append);
        self.push_row_step(step + 1, append);
        proof {
            assert(append@ =~= old(append)@ + archetype_start_text(*self, step));
        }
        step + 2
    }
}

} // verus!
