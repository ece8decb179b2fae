//! Pieces of the generated query code that several steps share: the checks
//! placed at a step, the optional components of a variable, and the relation
//! helpers that follow relations from a bound variable.
use crate::generator::{columns_view, RelationHelperInfo, VarInfo};
use crate::query_terms::{Accessor, AccessorView};
use crate::join_order::{RelationConstraint, UnrelationConstraint};
use crate::text::{decimal, push_decimal, push_isize, signed_decimal};
use vstd::prelude::*;
use vstd::string::StringExecFns;

verus! {

/// The two variables are bound to the same entity.
pub open spec fn unequal_check(a: isize, b: isize) -> Seq<char> {
    "\n                (::std::ptr::eq(a_refs["@ + signed_decimal(a as int) + "], a_refs["@ + signed_decimal(
        b as int,
    ) + "])\n                 && a_rows["@ + signed_decimal(a as int) + "] == a_rows["@ + signed_decimal(b as int)
        + "])"@
}

/// The entity a check is about: the variable bound from outside, or the one just bound.
pub open spec fn checked_id(c: Option<isize>) -> Seq<char> {
    match c {
        Some(it) => "invar_"@ + signed_decimal(it as int) + ".id"@,
        None => "id"@,
    }
}

/// A relation that does not hold.
pub open spec fn rel_check(c: RelationConstraint) -> Seq<char> {
    "\n                !rel_helper_"@ + decimal(c.helper_nr as nat) + ".has_relation("@ + checked_id(c.checked_invar)
        + ")\n                "@
}

/// A negated relation that does hold.
pub open spec fn unrel_check(c: UnrelationConstraint) -> Seq<char> {
    "\n                !unrel_helper_"@ + decimal(c.helper_nr as nat) + ".satisfied("@ + checked_id(c.checked_invar)
        + ")\n                "@
}

pub open spec fn check_items(
    ue: Seq<(isize, isize)>,
    rc: Seq<RelationConstraint>,
    urc: Seq<UnrelationConstraint>,
) -> Seq<Seq<char>> {
    ue.map_values(|p: (isize, isize)| unequal_check(p.0, p.1)) + rc.map_values(
        |c: RelationConstraint| rel_check(c),
    ) + urc.map_values(|c: UnrelationConstraint| unrel_check(c))
}

/// The conditions, each on a line of its own, joined by `||`.
pub open spec fn joined(items: Seq<Seq<char>>) -> Seq<char>
    decreases items.len(),
{
    if items.len() == 0 {
        Seq::empty()
    } else if items.len() == 1 {
        items[0]
    } else {
        joined(items.drop_last()) + "\n            ||"@ + items.last()
    }
}

/// An `if` whose condition holds when one of the checks fails.
pub open spec fn checks_text(
    ue: Seq<(isize, isize)>,
    rc: Seq<RelationConstraint>,
    urc: Seq<UnrelationConstraint>,
) -> Seq<char> {
    "\n            if"@ + joined(check_items(ue, rc, urc))
}

fn push_checked_id(append: &mut String, c: Option<isize>)
    ensures
        final(append)@ == old(append)@ + checked_id(c),
{
    match c {
        Some(it) => {
            append.append("invar_");
            push_isize(append, it);
            append.append(".id");
        },
        None => {
            append.append("id");
        },
    }
    proof {
        assert(append@ =~= old(append)@ + checked_id(c));
    }
}

fn push_unequal_check(append: &mut String, a: isize, b: isize)
    ensures
        final(append)@ == old(append)@ + unequal_check(a, b),
{
    append.append("\n                (::std::ptr::eq(a_refs[");
    push_isize(append, a);
    append.append("], a_refs[");
    push_isize(append, b);
    append.append("])\n                 && a_rows[");
    push_isize(append, a);
    append.append("] == a_rows[");
    push_isize(append, b);
    append.append("])");
    proof {
        assert(append@ =~= old(append)@ + unequal_check(a, b));
    }
}

fn push_rel_check(append: &mut String, rc: RelationConstraint)
    ensures
        final(append)@ == old(append)@ + rel_check(rc),
{
    append.append("\n                !rel_helper_");
    push_decimal(append, rc.helper_nr);
    append.append(".has_relation(");
    push_checked_id(append, rc.checked_invar);
    append.append(")\n                ");
    proof {
        assert(append@ =~= old(append)@ + rel_check(rc));
    }
}

fn push_unrel_check(append: &mut String, rc: UnrelationConstraint)
    ensures
        final(append)@ == old(append)@ + unrel_check(rc),
{
    append.append("\n                !unrel_helper_");
    push_decimal(append, rc.helper_nr);
    append.append(".satisfied(");
    push_checked_id(append, rc.checked_invar);
    append.append(")\n                ");
    proof {
        assert(append@ =~= old(append)@ + unrel_check(rc));
    }
}

/// Separates a condition from the one before it, if any.
fn push_separator(append: &mut String, not_first: bool)
    ensures
        final(append)@ == old(append)@ + if not_first {
            "\n            ||"@
        } else {
            Seq::empty()
        },
{
    if not_first {
        append.append("\n            ||");
    } else {
        proof {
            assert(append@ =~= old(append)@ + Seq::<char>::empty());
        }
    }
}

proof fn lemma_joined_push(items: Seq<Seq<char>>, k: int)
    requires
        0 <= k < items.len(),
    ensures
        joined(items.take(k + 1)) == joined(items.take(k)) + (if k > 0 {
            "\n            ||"@
        } else {
            Seq::<char>::empty()
        }) + items[k],
{
    assert(items.take(k + 1).drop_last() =~= items.take(k));
    if k == 0 {
        assert(joined(items.take(1)) == items.take(1)[0]);
        assert(joined(items.take(0)) =~= Seq::<char>::empty());
        assert(Seq::<char>::empty() + Seq::<char>::empty() + items[0] =~= items[0]);
    }
}

/// Writes an `if` whose condition holds when one of the checks fails: two
/// variables that must differ are bound to the same entity, a relation does not
/// hold, or a negated relation holds.
pub fn insert_checks(
    append: &mut String,
    unequalities: &[(isize, isize)],
    rel_constraints: &[RelationConstraint],
    unrel_constraints: &[UnrelationConstraint],
)
    ensures
        final(append)@ == old(append)@ + checks_text(unequalities@, rel_constraints@, unrel_constraints@),
{
    let ghost items = check_items(unequalities@, rel_constraints@, unrel_constraints@);
    append.append("\n            if");
    let ghost head = append@;
    let mut not_first = false;
    let ghost mut count: int = 0;
    let mut i: usize = 0;
    while i < unequalities.len()
        invariant
            0 <= i <= unequalities@.len(),
            count == i,
            items == check_items(unequalities@, rel_constraints@, unrel_constraints@),
            not_first == (count > 0),
            append@ == head + joined(items.take(count)),
        decreases unequalities@.len() - i,
    {
        let (a, b) = unequalities[i];
        proof {
            lemma_joined_push(items, count);
            assert(items[count] == unequal_check(a, b));
        }
        push_separator(append, not_first);
        push_unequal_check(append, a, b);
        not_first = true;
        i += 1;
        proof {
            count = count + 1;
            assert(append@ =~= head + joined(items.take(count)));
        }
    }
    let mut i: usize = 0;
    while i < rel_constraints.len()
        invariant
            0 <= i <= rel_constraints@.len(),
            count == unequalities@.len() + i,
            items == check_items(unequalities@, rel_constraints@, unrel_constraints@),
            not_first == (count > 0),
            append@ == head + joined(items.take(count)),
        decreases rel_constraints@.len() - i,
    {
        let rc = rel_constraints[i];
        proof {
            lemma_joined_push(items, count);
            assert(items[count] == rel_check(rc));
        }
        push_separator(append, not_first);
        push_rel_check(append, rc);
        not_first = true;
        i += 1;
        proof {
            count = count + 1;
            assert(append@ =~= head + joined(items.take(count)));
        }
    }
    let mut i: usize = 0;
    while i < unrel_constraints.len()
        invariant
            0 <= i <= unrel_constraints@.len(),
            count == unequalities@.len() + rel_constraints@.len() + i,
            items == check_items(unequalities@, rel_constraints@, unrel_constraints@),
            not_first == (count > 0),
            append@ == head + joined(items.take(count)),
        decreases unrel_constraints@.len() - i,
    {
        let rc = unrel_constraints[i];
        proof {
            lemma_joined_push(items, count);
            assert(items[count] == unrel_check(rc));
        }
        push_separator(append, not_first);
        push_unrel_check(append, rc);
        not_first = true;
        i += 1;
        proof {
            count = count + 1;
            assert(append@ =~= head + joined(items.take(count)));
        }
    }
    proof {
        assert(items.take(count) =~= items);
    }
}

/// The declaration of an optional component's id and column.
pub open spec fn opt_decl(ty: Seq<char>, id: usize) -> Seq<char> {
    "\nlet opt_cid_"@ + decimal(id as nat) + " = world.get_component_id::<"@ + ty + ">();\nlet mut opt_col_"@
        + decimal(id as nat) + " = None;"@
}

/// Looking up an optional component's column in the current archetype.
pub open spec fn opt_lookup(id: usize) -> Seq<char> {
    "\n            opt_col_"@ + decimal(id as nat) + " = a_ref.find_column_opt(opt_cid_"@ + decimal(id as nat)
        + ");\n"@
}

pub open spec fn opt_decls(opts: Seq<(Seq<char>, usize)>) -> Seq<char>
    decreases opts.len(),
{
    if opts.len() == 0 {
        Seq::empty()
    } else {
        opt_decls(opts.drop_last()) + opt_decl(opts.last().0, opts.last().1)
    }
}

pub open spec fn opt_lookups(opts: Seq<(Seq<char>, usize)>) -> Seq<char>
    decreases opts.len(),
{
    if opts.len() == 0 {
        Seq::empty()
    } else {
        opt_lookups(opts.drop_last()) + opt_lookup(opts.last().1)
    }
}

fn push_string(s: &mut String, t: &String)
    ensures
        final(s)@ == old(s)@ + t@,
{
    s.append(t.as_str());
}

fn push_opt_decl(prepend: &mut String, ty: &String, id: usize)
    ensures
        final(prepend)@ == old(prepend)@ + opt_decl(ty@, id),
{
    prepend.append("\nlet opt_cid_");
    push_decimal(prepend, id);
    prepend.append(" = world.get_component_id::<");
    push_string(prepend, ty);
    prepend.append(">();\nlet mut opt_col_");
    push_decimal(prepend, id);
    prepend.append(" = None;");
    proof {
        assert(prepend@ =~= old(prepend)@ + opt_decl(ty@, id));
    }
}

fn push_opt_lookup(append: &mut String, id: usize)
    ensures
        final(append)@ == old(append)@ + opt_lookup(id),
{
    append.append("\n            opt_col_");
    push_decimal(append, id);
    append.append(" = a_ref.find_column_opt(opt_cid_");
    push_decimal(append, id);
    append.append(");\n");
    proof {
        assert(append@ =~= old(append)@ + opt_lookup(id));
    }
}

/// Declares the optional components before the query and looks up their
/// columns at the step.
pub fn insert_optional_comps(prepend: &mut String, append: &mut String, opt_components: &[(String, usize)])
    ensures
        final(prepend)@ == old(prepend)@ + opt_decls(crate::generator::columns_view(opt_components@)),
        final(append)@ == old(append)@ + opt_lookups(crate::generator::columns_view(opt_components@)),
{
    let ghost ov = crate::generator::columns_view(opt_components@);
    let mut i: usize = 0;
    while i < opt_components.len()
        invariant
            0 <= i <= opt_components@.len(),
            ov == crate::generator::columns_view(opt_components@),
            prepend@ == old(prepend)@ + opt_decls(ov.take(i as int)),
            append@ == old(append)@ + opt_lookups(ov.take(i as int)),
        decreases opt_components@.len() - i,
    {
        proof {
            assert(ov.take(i + 1).drop_last() =~= ov.take(i as int));
            assert(ov.take(i + 1).last() == ov[i as int]);
        }
        let id = opt_components[i].1;
        push_opt_decl(prepend, &opt_components[i].0, id);
        push_opt_lookup(append, id);
        i += 1;
        proof {
            assert(prepend@ =~= old(prepend)@ + opt_decls(ov.take(i as int)));
            assert(append@ =~= old(append)@ + opt_lookups(ov.take(i as int)));
        }
    }
    proof {
        assert(ov.take(i as int) =~= ov);
    }
}

/// Creating a relation helper from the relation's component id.
pub open spec fn helper_init(h: RelationHelperInfo) -> Seq<char> {
    "\nlet mut rel_helper_"@ + decimal(h.nr as nat) + " = ::froql::query_helper::RelationHelper::new\n    (components_"@
        + signed_decimal(h.old_var as int) + "["@ + decimal(h.cid_index as nat) + "]);\n"@
}

/// Pointing a relation helper at the relation's column in the current archetype.
pub open spec fn helper_set_col(h: RelationHelperInfo) -> Seq<char> {
    "\n    rel_helper_"@ + decimal(h.nr as nat) + ".set_col(&a_ref.columns[col_indexes["@ + decimal(
        h.column_index as nat,
    ) + "]]);\n"@
}

/// Pointing a relation helper at the current row of its variable.
pub open spec fn helper_set_row(h: RelationHelperInfo) -> Seq<char> {
    "\n        rel_helper_"@ + decimal(h.nr as nat) + ".set_row(bk, a_rows["@ + signed_decimal(h.old_var as int)
        + "].0);\n"@
}

pub open spec fn helper_inits(hs: Seq<RelationHelperInfo>) -> Seq<char>
    decreases hs.len(),
{
    if hs.len() == 0 {
        Seq::empty()
    } else {
        helper_inits(hs.drop_last()) + helper_init(hs.last())
    }
}

pub open spec fn helper_set_cols(hs: Seq<RelationHelperInfo>) -> Seq<char>
    decreases hs.len(),
{
    if hs.len() == 0 {
        Seq::empty()
    } else {
        helper_set_cols(hs.drop_last()) + helper_set_col(hs.last())
    }
}

pub open spec fn helper_set_rows(hs: Seq<RelationHelperInfo>) -> Seq<char>
    decreases hs.len(),
{
    if hs.len() == 0 {
        Seq::empty()
    } else {
        helper_set_rows(hs.drop_last()) + helper_set_row(hs.last())
    }
}

fn push_helper_init(prepend: &mut String, h: &RelationHelperInfo)
    ensures
        final(prepend)@ == old(prepend)@ + helper_init(*h),
{
    prepend.append("\nlet mut rel_helper_");
    push_decimal(prepend, h.nr);
    prepend.append(" = ::froql::query_helper::RelationHelper::new\n    (components_");
    push_isize(prepend, h.old_var);
    prepend.append("[");
    push_decimal(prepend, h.cid_index);
    prepend.append("]);\n");
    proof {
        assert(prepend@ =~= old(prepend)@ + helper_init(*h));
    }
}

fn push_helper_set_col(append: &mut String, h: &RelationHelperInfo)
    ensures
        final(append)@ == old(append)@ + helper_set_col(*h),
{
    append.append("\n    rel_helper_");
    push_decimal(append, h.nr);
    append.append(".set_col(&a_ref.columns[col_indexes[");
    push_decimal(append, h.column_index);
    append.append("]]);\n");
    proof {
        assert(append@ =~= old(append)@ + helper_set_col(*h));
    }
}

fn push_helper_set_row(append: &mut String, h: &RelationHelperInfo)
    ensures
        final(append)@ == old(append)@ + helper_set_row(*h),
{
    append.append("\n        rel_helper_");
    push_decimal(append, h.nr);
    append.append(".set_row(bk, a_rows[");
    push_isize(append, h.old_var);
    append.append("].0);\n");
    proof {
        assert(append@ =~= old(append)@ + helper_set_row(*h));
    }
}

/// Creates the relation helpers before the query and points them at their
/// columns at the step.
pub fn relation_helpers_init_and_set_col(
    prepend: &mut String,
    append: &mut String,
    helpers: &[RelationHelperInfo],
)
    ensures
        final(prepend)@ == old(prepend)@ + helper_inits(helpers@),
        final(append)@ == old(append)@ + helper_set_cols(helpers@),
{
    let mut i: usize = 0;
    while i < helpers.len()
        invariant
            0 <= i <= helpers@.len(),
            prepend@ == old(prepend)@ + helper_inits(helpers@.take(i as int)),
            append@ == old(append)@ + helper_set_cols(helpers@.take(i as int)),
        decreases helpers@.len() - i,
    {
        proof {
            assert(helpers@.take(i + 1).drop_last() =~= helpers@.take(i as int));
        }
        let h = &helpers[i];
        push_helper_init(prepend, h);
        push_helper_set_col(append, h);
        i += 1;
        proof {
            assert(prepend@ =~= old(prepend)@ + helper_inits(helpers@.take(i as int)));
            assert(append@ =~= old(append)@ + helper_set_cols(helpers@.take(i as int)));
        }
    }
    proof {
        assert(helpers@.take(i as int) =~= helpers@);
    }
}

/// Points the relation helpers at the current rows of their variables.
pub fn relation_helpers_set_rows(append: &mut String, helpers: &[RelationHelperInfo])
    ensures
        final(append)@ == old(append)@ + helper_set_rows(helpers@),
{
    let mut i: usize = 0;
    while i < helpers.len()
        invariant
            0 <= i <= helpers@.len(),
            append@ == old(append)@ + helper_set_rows(helpers@.take(i as int)),
        decreases helpers@.len() - i,
    {
        proof {
            assert(helpers@.take(i + 1).drop_last() =~= helpers@.take(i as int));
        }
        let h = &helpers[i];
        push_helper_set_row(append, h);
        i += 1;
        proof {
            assert(append@ =~= old(append)@ + helper_set_rows(helpers@.take(i as int)));
        }
    }
    proof {
        assert(helpers@.take(i as int) =~= helpers@);
    }
}

/// The last step: hands out the row that the steps before it found, one
/// accessor after the other.
pub struct YieldResult<'a> {
    pub accessors: &'a [Accessor],
    pub infos: &'a [VarInfo],
}

/// The column of component `ty` among a variable's columns; of two entries for
/// it the later one counts.
pub open spec fn component_column(cs: Seq<(Seq<char>, usize)>, ty: Seq<char>) -> Option<usize>
    decreases cs.len(),
{
    if cs.len() == 0 {
        None
    } else if cs.last().0 == ty {
        Some(cs.last().1)
    } else {
        component_column(cs.drop_last(), ty)
    }
}

/// The column of component `ty` of variable `var`.
pub open spec fn accessor_column(infos: Seq<VarInfo>, var: isize, ty: Seq<char>) -> Option<usize> {
    component_column(columns_view(infos[var as int].components@), ty)
}

/// Every component the accessors read has a column.
pub open spec fn accessors_have_columns(accs: Seq<AccessorView>, infos: Seq<VarInfo>) -> bool {
    forall|i: int|
        0 <= i < accs.len() ==> match #[trigger] accs[i] {
            AccessorView::Component(ty, var) => 0 <= var < infos.len() && accessor_column(infos, var, ty) is Some,
            AccessorView::ComponentMut(ty, var) => 0 <= var < infos.len() && accessor_column(infos, var, ty) is Some,
            _ => true,
        }
}

pub open spec fn component_read(ty: Seq<char>, var: isize, col: usize, borrow: Seq<char>) -> Seq<char> {
    "\n            ::froql::query_helper::coerce_cast::<"@ + ty + ">(\n                world,\n                a_refs["@
        + signed_decimal(var as int) + "].columns[col_indexes["@ + decimal(col as nat) + "]].get(a_rows["@
        + signed_decimal(var as int) + "].0)\n            )."@ + borrow + ","@
}

pub open spec fn optional_read(ty: Seq<char>, var: isize, opt_id: usize, borrow: Seq<char>) -> Seq<char> {
    "\n            (opt_col_"@ + decimal(opt_id as nat) + ".map(|col| {\n                ::froql::query_helper::coerce_cast::<"@ + ty
        + ">(\n                    world,\n                    col.get(a_rows["@ + signed_decimal(var as int) + "].0)\n                )."@
        + borrow + "\n            })),"@
}

/// The expression that hands out one accessor's part of the row.
pub open spec fn accessor_text(a: AccessorView, infos: Seq<VarInfo>) -> Seq<char> {
    match a {
        AccessorView::Component(ty, var) => component_read(ty, var, accessor_column(infos, var, ty).unwrap(), "borrow()"@),
        AccessorView::ComponentMut(ty, var) => component_read(
            ty,
            var,
            accessor_column(infos, var, ty).unwrap(),
            "borrow_mut()"@,
        ),
        AccessorView::OutVar(var) => "\n            ::froql::entity_view_deferred::EntityViewDeferred::from_id_unchecked(world,\n                                a_refs["@
            + signed_decimal(var as int) + "].entities[a_rows["@ + signed_decimal(var as int) + "].0 as usize]),"@,
        AccessorView::OptComponent(ty, var, opt_id) => optional_read(ty, var, opt_id, "borrow()"@),
        AccessorView::OptMutComponent(ty, var, opt_id) => optional_read(ty, var, opt_id, "borrow_mut()"@),
        AccessorView::Singleton(ty) => "\n            world.singleton::<"@ + ty + ">(),"@,
        AccessorView::SingletonMut(ty) => "\n            world.singleton_mut::<"@ + ty + ">(),"@,
    }
}

pub open spec fn accessors_text(accs: Seq<AccessorView>, infos: Seq<VarInfo>) -> Seq<char>
    decreases accs.len(),
{
    if accs.len() == 0 {
        Seq::empty()
    } else {
        accessors_text(accs.drop_last(), infos) + accessor_text(accs.last(), infos)
    }
}

/// The code of the last step.
pub open spec fn yield_text(step: usize, accs: Seq<AccessorView>, infos: Seq<VarInfo>) -> Seq<char> {
    "\n// yield row\n"@ + decimal(step as nat) + " => {\n    current_step -= 1;\n    return Some(unsafe {\n        ("@
        + accessors_text(accs, infos) + "\n        )\n    });\n}\n"@
}

pub open spec fn accessors_view(accs: Seq<Accessor>) -> Seq<AccessorView> {
    accs.map_values(|a: Accessor| a@)
}

/// The column of component `ty` among `cs`: the last entry for it.
fn column_of_component(cs: &Vec<(String, usize)>, ty: &String) -> (r: Option<usize>)
    ensures
        r == component_column(columns_view(cs@), ty@),
{
    let ghost full = columns_view(cs@);
    let mut i: usize = cs.len();
    proof {
        assert(full.take(i as int) =~= full);
    }
    while i > 0
        invariant
            0 <= i <= cs@.len(),
            full == columns_view(cs@),
            component_column(full, ty@) == component_column(full.take(i as int), ty@),
        decreases i,
    {
        proof {
            assert(full.take(i as int).drop_last() =~= full.take(i - 1));
            assert(full.take(i as int).last() == full[i - 1]);
        }
        if cs[i - 1].0 == *ty {
            return Some(cs[i - 1].1);
        }
        i -= 1;
    }
    None
}

fn push_component_read(append: &mut String, ty: &String, var: isize, col: usize, borrow_mut: bool)
    ensures
        final(append)@ == old(append)@ + component_read(ty@, var, col, if borrow_mut {
            "borrow_mut()"@
        } else {
            "borrow()"@
        }),
{
    append.append("\n            ::froql::query_helper::coerce_cast::<");
    push_string(append, ty);
    append.append(">(\n                world,\n                a_refs[");
    push_isize(append, var);
    append.append("].columns[col_indexes[");
    push_decimal(append, col);
    append.append("]].get(a_rows[");
    push_isize(append, var);
    append.append("].0)\n            ).");
    if borrow_mut {
        append.append("borrow_mut()");
    } else {
        append.append("borrow()");
    }
    append.append(",");
    proof {
        assert(append@ =~= old(append)@ + component_read(ty@, var, col, if borrow_mut {
            "borrow_mut()"@
        } else {
            "borrow()"@
        }));
    }
}

fn push_optional_read(append: &mut String, ty: &String, var: isize, opt_id: usize, borrow_mut: bool)
    ensures
        final(append)@ == old(append)@ + optional_read(ty@, var, opt_id, if borrow_mut {
            "borrow_mut()"@
        } else {
            "borrow()"@
        }),
{
    append.append("\n            (opt_col_");
    push_decimal(append, opt_id);
    append.append(".map(|col| {\n                ::froql::query_helper::coerce_cast::<");
    push_string(append, ty);
    append.append(">(\n                    world,\n                    col.get(a_rows[");
    push_isize(append, var);
    append.append("].0)\n                ).");
    if borrow_mut {
        append.append("borrow_mut()");
    } else {
        append.append("borrow()");
    }
    append.append("\n            })),");
    proof {
        assert(append@ =~= old(append)@ + optional_read(ty@, var, opt_id, if borrow_mut {
            "borrow_mut()"@
        } else {
            "borrow()"@
        }));
    }
}

/// Writes the expression that hands out one accessor's part of the row.
fn push_accessor(append: &mut String, accessor: &Accessor, infos: &[VarInfo])
    requires
        match accessor@ {
            AccessorView::Component(ty, var) => 0 <= var < infos@.len() && accessor_column(infos@, var, ty) is Some,
            AccessorView::ComponentMut(ty, var) => 0 <= var < infos@.len() && accessor_column(infos@, var, ty) is Some,
            _ => true,
        },
    ensures
        final(append)@ == old(append)@ + accessor_text(accessor@, infos@),
{
    match accessor {
        Accessor::Component(ty, var) => {
            let col = column_of_component(&infos[*var as usize].components, ty).unwrap();
            push_component_read(append, ty, *var, col, false);
        },
        Accessor::ComponentMut(ty, var) => {
            let col = column_of_component(&infos[*var as usize].components, ty).unwrap();
            push_component_read(append, ty, *var, col, true);
        },
        Accessor::OutVar(var) => {
            append.append(
                "\n            ::froql::entity_view_deferred::EntityViewDeferred::from_id_unchecked(world,\n                                a_refs[",
            );
            push_isize(append, *var);
            append.append("].entities[a_rows[");
            push_isize(append, *var);
            append.append("].0 as usize]),");
            proof {
                assert(append@ =~= old(append)@ + accessor_text(accessor@, infos@));
            }
        },
        Accessor::OptComponent(ty, var, opt_id) => {
            push_optional_read(append, ty, *var, *opt_id, false);
        },
        Accessor::OptMutComponent(ty, var, opt_id) => {
            push_optional_read(append, ty, *var, *opt_id, true);
        },
        Accessor::Singleton(ty) => {
            append.append("\n            world.singleton::<");
            push_string(append, ty);
            append.append(">(),");
            proof {
                assert(append@ =~= old(append)@ + accessor_text(accessor@, infos@));
            }
        },
        Accessor::SingletonMut(ty) => {
            append.append("\n            world.singleton_mut::<");
            push_string(append, ty);
            append.append(">(),");
            proof {
                assert(append@ =~= old(append)@ + accessor_text(accessor@, infos@));
            }
        },
    }
}

impl<'a> YieldResult<'a> {
    /// Writes the last step, at number `step`; there is no step after it.
    pub fn generate(&self, step: usize, prepend: &mut String, append: &mut String) -> (next: usize)
        requires
            accessors_have_columns(accessors_view(self.accessors@), self.infos@),
        ensures
            final(append)@ == old(append)@ + yield_text(step, accessors_view(self.accessors@), self.infos@),
            final(prepend)@ == old(prepend)@,
            next == usize::MAX,
    {
        let ghost accs = accessors_view(self.accessors@);
        append.append("\n// yield row\n");
        push_decimal(append, step);
        append.append(" => {\n    current_step -= 1;\n    return Some(unsafe {\n        (");
        let ghost head = append@;
        let mut i: usize = 0;
        while i < self.accessors.len()
            invariant
                0 <= i <= self.accessors@.len(),
                accs == accessors_view(self.accessors@),
                accessors_have_columns(accs, self.infos@),
                append@ == head + accessors_text(accs.take(i as int), self.infos@),
            decreases self.accessors@.len() - i,
        {
            proof {
                assert(accs.take(i + 1).drop_last() =~= accs.take(i as int));
                assert(accs.take(i + 1).last() == accs[i as int]);
                assert(accs[i as int] == self.accessors@[i as int]@);
            }
            push_accessor(append, &self.accessors[i], self.infos);
            i += 1;
        }
        proof {
            assert(accs.take(i as int) =~= accs);
        }
        append.append("\n        )\n    });\n}\n");
        proof {
            assert(append@ =~= old(append)@ + yield_text(step, accs, self.infos@));
        }
        usize::MAX
    }
}

} // verus!
