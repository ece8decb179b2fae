//! From the tokens of a query to the description that the code generator
//! works from: the numbered variables and, per kind of term, what the query
//! asks of them.
use crate::query_parser::{
    is_punct, lemma_spells_unique, parse_term, punct_is, spells, term_panics, RelationVarKind,
    RelationVarView, Term, TermError, TermView, Token, VarKind, VarView,
};
use vstd::prelude::*;

verus! {

/// Stands for `_` in a relation: any entity.
pub const ANYVAR: isize = isize::MAX;

// we need to preserve the order of the query in the result
// this is why we put result entities and components in the same vec via enum
#[derive(Debug, PartialEq, Eq)]
pub enum Accessor {
    /// ComponentType, var
    Component(String, isize),
    /// ComponentType, var
    ComponentMut(String, isize),
    /// var index in result
    OutVar(isize),
    /// ComponentType, var, opt_col_index
    OptComponent(String, isize, usize),
    /// ComponentType, var, opt_col_index
    OptMutComponent(String, isize, usize),
    /// ComponentType
    Singleton(String),
    /// ComponentType
    SingletonMut(String),
}

pub enum AccessorView {
    Component(Seq<char>, isize),
    ComponentMut(Seq<char>, isize),
    OutVar(isize),
    OptComponent(Seq<char>, isize, usize),
    OptMutComponent(Seq<char>, isize, usize),
    Singleton(Seq<char>),
    SingletonMut(Seq<char>),
}

impl View for Accessor {
    type V = AccessorView;

    open spec fn view(&self) -> AccessorView {
        match self {
            Accessor::Component(ty, v) => AccessorView::Component(ty@, *v),
            Accessor::ComponentMut(ty, v) => AccessorView::ComponentMut(ty@, *v),
            Accessor::OutVar(v) => AccessorView::OutVar(*v),
            Accessor::OptComponent(ty, v, i) => AccessorView::OptComponent(ty@, *v, *i),
            Accessor::OptMutComponent(ty, v, i) => AccessorView::OptMutComponent(ty@, *v, *i),
            Accessor::Singleton(ty) => AccessorView::Singleton(ty@),
            Accessor::SingletonMut(ty) => AccessorView::SingletonMut(ty@),
        }
    }
}

/// What a query asks for, with its variables numbered.
#[derive(Debug, PartialEq, Eq, Default)]
pub struct Generator {
    pub vars: Vec<isize>,
    /// variable => name of the entity it is bound to from outside the query
    pub prefills: Vec<(isize, String)>,
    /// ComponentType, source_var
    pub components: Vec<(String, isize)>,
    /// RelationType, from_var, to_var
    pub relations: Vec<(String, isize, isize)>,
    pub uncomponents: Vec<(String, isize)>,
    /// Type, variable, opt component number
    pub opt_components: Vec<(String, isize, usize)>,
    pub unequals: Vec<(isize, isize)>,
    pub accessors: Vec<Accessor>,
    /// RelationType, from_var, to_var, index
    pub unrelations: Vec<(String, isize, isize, usize)>,
}

#[verifier::ext_equal]
/// The description being built, term by term: the variable names seen so far
/// (a variable's number is its position) and what the terms asked for.
pub struct QueryState {
    pub names: Seq<Seq<char>>,
    pub prefills: Map<isize, Seq<char>>,
    pub components: Seq<(Seq<char>, isize)>,
    pub relations: Seq<(Seq<char>, isize, isize)>,
    pub uncomponents: Seq<(Seq<char>, isize)>,
    pub opt_components: Seq<(Seq<char>, isize, usize)>,
    pub unequals: Seq<(isize, isize)>,
    pub accessors: Seq<AccessorView>,
    pub unrelations: Seq<(Seq<char>, isize, isize, usize)>,
}

pub open spec fn empty_state() -> QueryState {
    QueryState {
        names: Seq::empty(),
        prefills: Map::empty(),
        components: Seq::empty(),
        relations: Seq::empty(),
        uncomponents: Seq::empty(),
        opt_components: Seq::empty(),
        unequals: Seq::empty(),
        accessors: Seq::empty(),
        unrelations: Seq::empty(),
    }
}

/// The number of the variable `n`: its position among the names seen, or the
/// next free number.
pub open spec fn number_of(names: Seq<Seq<char>>, n: Seq<char>) -> isize {
    if names.contains(n) {
        (choose|i: int| 0 <= i < names.len() && names[i] == n) as isize
    } else {
        names.len() as isize
    }
}

pub open spec fn with_name(names: Seq<Seq<char>>, n: Seq<char>) -> Seq<Seq<char>> {
    if names.contains(n) {
        names
    } else {
        names.push(n)
    }
}

pub open spec fn underscore() -> Seq<char> {
    seq!['_']
}

/// A relation side named `_` stands for any entity.
pub open spec fn side(r: RelationVarView) -> RelationVarView {
    match r {
        RelationVarView::Var(n) => if n == underscore() {
            RelationVarView::AnyVar
        } else {
            r
        },
        _ => r,
    }
}

pub open spec fn side_number(names: Seq<Seq<char>>, r: RelationVarView) -> isize {
    match r {
        RelationVarView::Var(n) => number_of(names, n),
        RelationVarView::InVar(n) => number_of(names, n),
        RelationVarView::AnyVar => ANYVAR,
    }
}

pub open spec fn side_names(names: Seq<Seq<char>>, r: RelationVarView) -> Seq<Seq<char>> {
    match r {
        RelationVarView::Var(n) => with_name(names, n),
        RelationVarView::InVar(n) => with_name(names, n),
        RelationVarView::AnyVar => names,
    }
}

pub open spec fn side_prefills(
    pf: Map<isize, Seq<char>>,
    names: Seq<Seq<char>>,
    r: RelationVarView,
) -> Map<isize, Seq<char>> {
    match r {
        RelationVarView::InVar(n) => pf.insert(number_of(names, n), n),
        _ => pf,
    }
}

pub open spec fn var_name(v: VarView) -> Seq<char> {
    match v {
        VarView::Var(n) => n,
        VarView::InVar(n) => n,
    }
}

pub open spec fn var_prefills(
    pf: Map<isize, Seq<char>>,
    names: Seq<Seq<char>>,
    v: VarView,
) -> Map<isize, Seq<char>> {
    match v {
        VarView::InVar(n) => pf.insert(number_of(names, n), n),
        VarView::Var(_) => pf,
    }
}

/// A term uses `*_`, or `_` on both sides of a relation: the macro stops there.
pub open spec fn misuses_anyvar(t: TermView) -> bool {
    match t {
        TermView::Relation(_, a, b) => bad_sides(a, b),
        TermView::Unrelation(_, a, b) => bad_sides(a, b),
        _ => false,
    }
}

pub open spec fn bad_sides(a: RelationVarView, b: RelationVarView) -> bool {
    a == RelationVarView::InVar(underscore()) || b == RelationVarView::InVar(underscore()) || (
    side(a) is AnyVar && side(b) is AnyVar)
}

/// The description after one more term.
pub open spec fn apply_term(st: QueryState, t: TermView) -> QueryState {
    match t {
        TermView::ComponentVar(ty, v) => {
            let n = var_name(v);
            let x = number_of(st.names, n);
            QueryState {
                names: with_name(st.names, n),
                prefills: var_prefills(st.prefills, st.names, v),
                components: st.components.push((ty, x)),
                accessors: st.accessors.push(AccessorView::Component(ty, x)),
                ..st
            }
        },
        TermView::MutComponentVar(ty, v) => {
            let n = var_name(v);
            let x = number_of(st.names, n);
            QueryState {
                names: with_name(st.names, n),
                prefills: var_prefills(st.prefills, st.names, v),
                components: st.components.push((ty, x)),
                accessors: st.accessors.push(AccessorView::ComponentMut(ty, x)),
                ..st
            }
        },
        TermView::NoOutComponentVar(ty, v) => {
            let n = var_name(v);
            let x = number_of(st.names, n);
            QueryState {
                names: with_name(st.names, n),
                prefills: var_prefills(st.prefills, st.names, v),
                components: st.components.push((ty, x)),
                ..st
            }
        },
        TermView::OutVar(n) => {
            let x = number_of(st.names, n);
            QueryState {
                names: with_name(st.names, n),
                accessors: st.accessors.push(AccessorView::OutVar(x)),
                ..st
            }
        },
        TermView::ConstraintUnequal(a, b) => {
            let na = with_name(st.names, var_name(a));
            let xa = number_of(st.names, var_name(a));
            let xb = number_of(na, var_name(b));
            QueryState {
                names: with_name(na, var_name(b)),
                prefills: var_prefills(var_prefills(st.prefills, st.names, a), na, b),
                unequals: st.unequals.push((xa, xb)),
                ..st
            }
        },
        TermView::Uncomponent(ty, n) => {
            let x = number_of(st.names, n);
            QueryState {
                names: with_name(st.names, n),
                uncomponents: st.uncomponents.push((ty, x)),
                ..st
            }
        },
        TermView::Relation(ty, a0, b0) => {
            let a = side(a0);
            let b = side(b0);
            let na = side_names(st.names, a);
            QueryState {
                names: side_names(na, b),
                prefills: side_prefills(side_prefills(st.prefills, st.names, a), na, b),
                relations: st.relations.push((ty, side_number(st.names, a), side_number(na, b))),
                ..st
            }
        },
        TermView::Unrelation(ty, a0, b0) => {
            let a = side(a0);
            let b = side(b0);
            let na = side_names(st.names, a);
            QueryState {
                names: side_names(na, b),
                prefills: side_prefills(side_prefills(st.prefills, st.names, a), na, b),
                unrelations: st.unrelations.push(
                    (ty, side_number(st.names, a), side_number(na, b), st.unrelations.len() as usize),
                ),
                ..st
            }
        },
        TermView::OptionalComponent(ty, n) => {
            let x = number_of(st.names, n);
            let i = st.opt_components.len() as usize;
            QueryState {
                names: with_name(st.names, n),
                opt_components: st.opt_components.push((ty, x, i)),
                accessors: st.accessors.push(AccessorView::OptComponent(ty, x, i)),
                ..st
            }
        },
        TermView::OptionalMutComponent(ty, n) => {
            let x = number_of(st.names, n);
            let i = st.opt_components.len() as usize;
            QueryState {
                names: with_name(st.names, n),
                opt_components: st.opt_components.push((ty, x, i)),
                accessors: st.accessors.push(AccessorView::OptMutComponent(ty, x, i)),
                ..st
            }
        },
    }
}

pub open spec fn names_view(names: Seq<String>) -> Seq<Seq<char>> {
    names.map_values(|s: String| s@)
}

pub open spec fn distinct_names(names: Seq<Seq<char>>) -> bool {
    forall|i: int, j: int| 0 <= i < j < names.len() ==> names[i] != names[j]
}

pub open spec fn keys_distinct(v: Seq<(isize, String)>) -> bool {
    forall|i: int, j: int| 0 <= i < j < v.len() ==> v[i].0 != v[j].0
}

/// The map that a list of distinct keys and their names stands for.
pub open spec fn prefill_view(v: Seq<(isize, String)>) -> Map<isize, Seq<char>> {
    Map::new(
        |k: isize| exists|i: int| 0 <= i < v.len() && v[i].0 == k,
        |k: isize| v[choose|i: int| 0 <= i < v.len() && v[i].0 == k].1@,
    )
}

/// The description a generator holds, with `names` numbering its variables.
pub open spec fn state_of(g: Generator, names: Seq<String>) -> QueryState {
    QueryState {
        names: names_view(names),
        prefills: prefill_view(g.prefills@),
        components: g.components@.map_values(|c: (String, isize)| (c.0@, c.1)),
        relations: g.relations@.map_values(|c: (String, isize, isize)| (c.0@, c.1, c.2)),
        uncomponents: g.uncomponents@.map_values(|c: (String, isize)| (c.0@, c.1)),
        opt_components: g.opt_components@.map_values(|c: (String, isize, usize)| (c.0@, c.1, c.2)),
        unequals: g.unequals@,
        accessors: g.accessors@.map_values(|a: Accessor| a@),
        unrelations: g.unrelations@.map_values(
            |c: (String, isize, isize, usize)| (c.0@, c.1, c.2, c.3),
        ),
    }
}

/// The number of variable `n`, which is added to `names` when new.
fn var_number(names: &mut Vec<String>, n: &String) -> (x: isize)
    requires
        distinct_names(names_view(old(names)@)),
        old(names)@.len() < isize::MAX,
    ensures
        names_view(final(names)@) == with_name(names_view(old(names)@), n@),
        x == number_of(names_view(old(names)@), n@),
        distinct_names(names_view(final(names)@)),
{
    let ghost old_view = names_view(names@);
    let mut i: usize = 0;
    while i < names.len()
        invariant
            0 <= i <= names.len(),
            names@ == old(names)@,
            old_view == names_view(names@),
            distinct_names(old_view),
            forall|j: int| 0 <= j < i ==> old_view[j] != n@,
        decreases names.len() - i,
    {
        if names[i] == *n {
            proof {
                assert(old_view[i as int] == n@);
                assert(old_view.contains(n@));
                let c = choose|c: int| 0 <= c < old_view.len() && old_view[c] == n@;
                assert(old_view[c] == old_view[i as int]);
            }
            return i as isize;
        }
        i += 1;
    }
    let c = n.clone();
    names.push(c);
    proof {
        assert(!old_view.contains(n@));
        assert(names_view(names@) =~= old_view.push(n@));
    }
    (names.len() - 1) as isize
}

/// Binds variable `k` to the outside entity `n`, as a map insert.
fn prefill(prefills: &mut Vec<(isize, String)>, k: isize, n: &String)
    requires
        keys_distinct(old(prefills)@),
    ensures
        keys_distinct(final(prefills)@),
        prefill_view(final(prefills)@) == prefill_view(old(prefills)@).insert(k, n@),
{
    let ghost old_v = prefills@;
    let mut i: usize = 0;
    while i < prefills.len()
        invariant
            0 <= i <= prefills.len(),
            prefills@ == old_v,
            old_v == old(prefills)@,
            keys_distinct(old_v),
            forall|j: int| 0 <= j < i ==> old_v[j].0 != k,
        decreases prefills.len() - i,
    {
        if prefills[i].0 == k {
            let c = n.clone();
            prefills.set(i, (k, c));
            proof {
                let nv = prefills@;
                assert forall|a: int, b: int| 0 <= a < b < nv.len() implies nv[a].0 != nv[b].0 by {
                    assert(old_v[a].0 != old_v[b].0);
                }
                assert forall|x: isize| #[trigger] prefill_view(nv).contains_key(x) == prefill_view(
                    old_v,
                ).insert(k, n@).contains_key(x) by {
                    if exists|j: int| 0 <= j < nv.len() && nv[j].0 == x {
                        let j = choose|j: int| 0 <= j < nv.len() && nv[j].0 == x;
                        assert(old_v[j].0 == x);
                    }
                    if exists|j: int| 0 <= j < old_v.len() && old_v[j].0 == x {
                        let j = choose|j: int| 0 <= j < old_v.len() && old_v[j].0 == x;
                        assert(nv[j].0 == x);
                    }
                }
                assert forall|x: isize| #[trigger] prefill_view(nv).contains_key(x) implies prefill_view(
                    nv,
                )[x] == prefill_view(old_v).insert(k, n@)[x] by {
                    let j = choose|j: int| 0 <= j < nv.len() && nv[j].0 == x;
                    if x == k {
                        assert(j == i);
                    } else {
                        let j2 = choose|j2: int| 0 <= j2 < old_v.len() && old_v[j2].0 == x;
                        assert(old_v[j].0 == x);
                        assert(j2 == j);
                    }
                }
                assert(prefill_view(nv) =~= prefill_view(old_v).insert(k, n@));
            }
            return;
        }
        i += 1;
    }
    let c = n.clone();
    prefills.push((k, c));
    proof {
        let nv = prefills@;
        assert forall|x: isize| #[trigger] prefill_view(nv).contains_key(x) == prefill_view(
            old_v,
        ).insert(k, n@).contains_key(x) by {
            if exists|j: int| 0 <= j < old_v.len() && old_v[j].0 == x {
                let j = choose|j: int| 0 <= j < old_v.len() && old_v[j].0 == x;
                assert(nv[j].0 == x);
            }
            if x == k {
                assert(nv[old_v.len() as int].0 == x);
            }
        }
        assert forall|x: isize| #[trigger] prefill_view(nv).contains_key(x) implies prefill_view(
            nv,
        )[x] == prefill_view(old_v).insert(k, n@)[x] by {
            let j = choose|j: int| 0 <= j < nv.len() && nv[j].0 == x;
            if x == k {
                assert(j == old_v.len());
            } else {
                let j2 = choose|j2: int| 0 <= j2 < old_v.len() && old_v[j2].0 == x;
                assert(nv[j2].0 == x);
                assert(j2 == j);
            }
        }
        assert(prefill_view(nv) =~= prefill_view(old_v).insert(k, n@));
    }
}

/// The variables are numbered without repetition and each is bound at most once.
pub open spec fn building(g: Generator, names: Seq<String>) -> bool {
    distinct_names(names_view(names)) && keys_distinct(g.prefills@)
}

/// Splits a variable into its name and whether it comes from outside the query.
fn var_parts(v: VarKind) -> (r: (String, bool))
    ensures
        r.0@ == var_name(v@),
        r.1 == (v is InVar),
{
    match v {
        VarKind::Var(n) => (n, false),
        VarKind::InVar(n) => (n, true),
    }
}

/// Notes variable `v`; binds it from outside when it is an in-variable.
fn note_var(g: &mut Generator, names: &mut Vec<String>, v: VarKind) -> (x: isize)
    requires
        building(*old(g), old(names)@),
        old(names)@.len() < isize::MAX,
    ensures
        building(*final(g), final(names)@),
        x == number_of(names_view(old(names)@), var_name(v@)),
        state_of(*final(g), final(names)@) == (QueryState {
            names: with_name(names_view(old(names)@), var_name(v@)),
            prefills: var_prefills(prefill_view(old(g).prefills@), names_view(old(names)@), v@),
            ..state_of(*old(g), old(names)@)
        }),
        final(names)@.len() <= old(names)@.len() + 1,
{
    let ghost st = state_of(*g, names@);
    let (n, is_in) = var_parts(v);
    let x = var_number(names, &n);
    if is_in {
        prefill(&mut g.prefills, x, &n);
    }
    proof {
        assert(state_of(*g, names@).names == with_name(st.names, var_name(v@)));
    }
    x
}

/// Notes a relation side that already had `_` turned into `AnyVar`.
fn note_side(g: &mut Generator, names: &mut Vec<String>, r: RelationVarKind) -> (x: isize)
    requires
        building(*old(g), old(names)@),
        old(names)@.len() < isize::MAX,
        side(r@) == r@,
    ensures
        building(*final(g), final(names)@),
        x == side_number(names_view(old(names)@), r@),
        state_of(*final(g), final(names)@) == (QueryState {
            names: side_names(names_view(old(names)@), r@),
            prefills: side_prefills(prefill_view(old(g).prefills@), names_view(old(names)@), r@),
            ..state_of(*old(g), old(names)@)
        }),
        final(names)@.len() <= old(names)@.len() + 1,
{
    match r {
        RelationVarKind::Var(n) => note_var(g, names, VarKind::Var(n)),
        RelationVarKind::InVar(n) => note_var(g, names, VarKind::InVar(n)),
        RelationVarKind::AnyVar => ANYVAR,
    }
}

/// Adds one term, with its `_` sides already turned into `AnyVar`, to the description.
fn add_term(g: &mut Generator, names: &mut Vec<String>, t: Term)
    requires
        building(*old(g), old(names)@),
        old(names)@.len() + 2 < isize::MAX,
        transformed(t@) == t@,
        !misuses_anyvar(t@),
    ensures
        building(*final(g), final(names)@),
        state_of(*final(g), final(names)@) == apply_term(state_of(*old(g), old(names)@), t@),
        final(names)@.len() <= old(names)@.len() + 2,
{
    let ghost st = state_of(*g, names@);
    let ghost tv = t@;
    match t {
        Term::ComponentVar(ty, v) => {
            let x = note_var(g, names, v);
            g.components.push((ty.clone(), x));
            g.accessors.push(Accessor::Component(ty, x));
            proof {
                assert(state_of(*g, names@).components =~= apply_term(st, tv).components);
                assert(state_of(*g, names@).accessors =~= apply_term(st, tv).accessors);
            }
        },
        Term::MutComponentVar(ty, v) => {
            let x = note_var(g, names, v);
            g.components.push((ty.clone(), x));
            g.accessors.push(Accessor::ComponentMut(ty, x));
            proof {
                assert(state_of(*g, names@).components =~= apply_term(st, tv).components);
                assert(state_of(*g, names@).accessors =~= apply_term(st, tv).accessors);
            }
        },
        Term::NoOutComponentVar(ty, v) => {
            // Optimization: don't need to access this, just check its there
            let x = note_var(g, names, v);
            g.components.push((ty, x));
            proof {
                assert(state_of(*g, names@).components =~= apply_term(st, tv).components);
            }
        },
        Term::OutVar(n) => {
            let x = note_var(g, names, VarKind::Var(n));
            g.accessors.push(Accessor::OutVar(x));
            proof {
                assert(state_of(*g, names@).accessors =~= apply_term(st, tv).accessors);
            }
        },
        Term::ConstraintUnequal(a, b) => {
            // maybe we should error if a constraint uses a variable defined nowhere else?
            let xa = note_var(g, names, a);
            let xb = note_var(g, names, b);
            g.unequals.push((xa, xb));
        },
        Term::Uncomponent(ty, n) => {
            let x = note_var(g, names, VarKind::Var(n));
            g.uncomponents.push((ty, x));
            proof {
                assert(state_of(*g, names@).uncomponents =~= apply_term(st, tv).uncomponents);
            }
        },
        Term::Relation(ty, a, b) => {
            let xa = note_side(g, names, a);
            let xb = note_side(g, names, b);
            g.relations.push((ty, xa, xb));
            proof {
                assert(state_of(*g, names@).relations =~= apply_term(st, tv).relations);
            }
        },
        Term::Unrelation(ty, a, b) => {
            let xa = note_side(g, names, a);
            let xb = note_side(g, names, b);
            let index = g.unrelations.len();
            g.unrelations.push((ty, xa, xb, index));
            proof {
                assert(state_of(*g, names@).unrelations =~= apply_term(st, tv).unrelations);
            }
        },
        Term::OptionalComponent(ty, n) => {
            let index = g.opt_components.len();
            let x = note_var(g, names, VarKind::Var(n));
            g.opt_components.push((ty.clone(), x, index));
            g.accessors.push(Accessor::OptComponent(ty, x, index));
            proof {
                assert(state_of(*g, names@).opt_components =~= apply_term(st, tv).opt_components);
                assert(state_of(*g, names@).accessors =~= apply_term(st, tv).accessors);
            }
        },
        Term::OptionalMutComponent(ty, n) => {
            let index = g.opt_components.len();
            let x = note_var(g, names, VarKind::Var(n));
            g.opt_components.push((ty.clone(), x, index));
            g.accessors.push(Accessor::OptMutComponent(ty, x, index));
            proof {
                assert(state_of(*g, names@).opt_components =~= apply_term(st, tv).opt_components);
                assert(state_of(*g, names@).accessors =~= apply_term(st, tv).accessors);
            }
        },
    }
}

/// the parser treats the identifier _ of anyvars as normal variable names
/// this function changes those to the proper anyvar enum variant
pub fn transform_anyvars(input: Term) -> (r: Term)
    requires
        !has_star_underscore(input@),
    ensures
        r@ == transformed(input@),
{
    match input {
        Term::Relation(ty, var_a, var_b) => Term::Relation(ty, transform_var(var_a), transform_var(var_b)),
        Term::Unrelation(ty, var_a, var_b) => Term::Unrelation(
            ty,
            transform_var(var_a),
            transform_var(var_b),
        ),
        no_transform => no_transform,
    }
}

/// `_` as a relation side becomes `AnyVar`; `*_` is refused by the macro.
pub fn transform_var(input: RelationVarKind) -> (r: RelationVarKind)
    requires
        input@ != RelationVarView::InVar(underscore()),
    ensures
        r@ == side(input@),
{
    match input {
        RelationVarKind::Var(var) => {
            if is_underscore(&var) {
                RelationVarKind::AnyVar
            } else {
                RelationVarKind::Var(var)
            }
        },
        other => other,
    }
}

fn is_underscore(s: &String) -> (r: bool)
    ensures
        r == (s@ == underscore()),
{
    proof {
        reveal_strlit("_");
        assert("_"@ =~= underscore());
    }
    let u: String = "_".to_owned();
    *s == u
}

/// The term as the macro reads it, with `_` relation sides as `AnyVar`.
pub open spec fn transformed(t: TermView) -> TermView {
    match t {
        TermView::Relation(ty, a, b) => TermView::Relation(ty, side(a), side(b)),
        TermView::Unrelation(ty, a, b) => TermView::Unrelation(ty, side(a), side(b)),
        _ => t,
    }
}

pub open spec fn has_star_underscore(t: TermView) -> bool {
    match t {
        TermView::Relation(_, a, b) => a == RelationVarView::InVar(underscore()) || b
            == RelationVarView::InVar(underscore()),
        TermView::Unrelation(_, a, b) => a == RelationVarView::InVar(underscore()) || b
            == RelationVarView::InVar(underscore()),
        _ => false,
    }
}

/// The terms of a query `world, term, term, ..`: the tokens after the first two,
/// split at commas. `start` is where the current term began, `i` the next token
/// to read. A comma that would end an empty term belongs to the next term.
pub open spec fn split_from(s: Seq<Token>, start: int, i: int) -> Seq<Seq<Token>>
    decreases s.len() - i,
{
    if i >= s.len() {
        if start < s.len() {
            seq![s.subrange(start, s.len() as int)]
        } else {
            Seq::empty()
        }
    } else if punct_is(s[i], ',') && start < i {
        seq![s.subrange(start, i)] + split_from(s, i + 1, i + 1)
    } else {
        split_from(s, start, i + 1)
    }
}

pub open spec fn query_terms(s: Seq<Token>) -> Seq<Seq<Token>> {
    split_from(s, 2, 2)
}

pub open spec fn parses(ts: Seq<Token>) -> bool {
    exists|t: Term| spells(t, ts)
}

/// The term that `ts` spells.
pub open spec fn term_of(ts: Seq<Token>) -> TermView {
    (choose|t: Term| spells(t, ts))@
}

/// The description after the given terms, each read with `_` sides as `AnyVar`.
pub open spec fn run_terms(terms: Seq<Seq<Token>>) -> QueryState
    decreases terms.len(),
{
    if terms.len() == 0 {
        empty_state()
    } else {
        apply_term(run_terms(terms.drop_last()), transformed(term_of(terms.last())))
    }
}

/// The macro stops on this term: `T()`, `*_`, or `_` on both sides of a relation.
pub open spec fn term_stops(ts: Seq<Token>) -> bool {
    term_panics(ts) || (parses(ts) && misuses_anyvar(term_of(ts)))
}

/// The macro stops before it has a description or an error: the query does not
/// start with `world,`, or a term that it reaches stops it.
pub open spec fn query_stops(s: Seq<Token>) -> bool {
    let terms = query_terms(s);
    ||| !(s.len() >= 2 && s[0] is Ident && punct_is(s[1], ','))
    ||| exists|k: int|
        0 <= k < terms.len() && (forall|j: int| 0 <= j < k ==> parses(#[trigger] terms[j]))
            && term_stops(#[trigger] terms[k])
}

/// `g` holds the description `st`, its variables numbered `0..`.
pub open spec fn describes(g: Generator, st: QueryState) -> bool {
    &&& g.vars@ == Seq::new(st.names.len(), |i: int| i as isize)
    &&& keys_distinct(g.prefills@)
    &&& state_of(g, Seq::empty()) == (QueryState { names: Seq::empty(), ..st })
}

/// Reads a query `world, term, term, ..`: the name of the world and the
/// description of the terms, or the error of the first term that spells nothing.
pub fn read_query(tokens: &[Token]) -> (r: Result<(String, Generator), TermError>)
    requires
        !query_stops(tokens@),
        2 * tokens@.len() + 4 < isize::MAX,
    ensures
        match r {
            Ok((world, g)) => {
                &&& ident_is_world(tokens@, world)
                &&& forall|k: int| 0 <= k < query_terms(tokens@).len() ==> parses(#[trigger] query_terms(tokens@)[k])
                &&& describes(g, run_terms(query_terms(tokens@)))
            },
            Err(_) => exists|k: int| 0 <= k < query_terms(tokens@).len() && !parses(#[trigger] query_terms(tokens@)[k]),
        },
{
    let ghost s = tokens@;
    let ghost terms = query_terms(s);
    let world = match &tokens[0] {
        Token::Ident(w) => w.clone(),
        _ => {
            proof {
                assert(false);
            }
            String::new()
        },
    };
    let mut g = Generator {
        vars: Vec::new(),
        prefills: Vec::new(),
        components: Vec::new(),
        relations: Vec::new(),
        uncomponents: Vec::new(),
        opt_components: Vec::new(),
        unequals: Vec::new(),
        accessors: Vec::new(),
        unrelations: Vec::new(),
    };
    let mut names: Vec<String> = Vec::new();
    let n = tokens.len();
    let mut start: usize = 2;
    let mut i: usize = 2;
    let ghost mut done: Seq<Seq<Token>> = Seq::empty();
    proof {
        assert(state_of(g, names@) =~= empty_state());
        assert(done + split_from(s, start as int, i as int) =~= terms);
    }
    while i < n
        invariant
            s == tokens@,
            terms == query_terms(s),
            n == s.len(),
            2 * n + 4 < isize::MAX,
            !query_stops(s),
            2 <= start <= i <= n,
            done + split_from(s, start as int, i as int) == terms,
            done.len() <= terms.len(),
            forall|k: int| 0 <= k < done.len() ==> done[k] == terms[k],
            forall|k: int| 0 <= k < done.len() ==> parses(#[trigger] done[k]),
            building(g, names@),
            state_of(g, names@) == run_terms(done),
            names@.len() <= 2 * start,
        decreases n - i,
    {
        if is_punct(&tokens[i], ',') && start < i {
            let term = &tokens[start..i];
            proof {
                assert(split_from(s, start as int, i as int) == seq![s.subrange(start as int, i as int)]
                    + split_from(s, i + 1, i + 1));
                lemma_term_at(done, split_from(s, start as int, i as int), terms);
                lemma_reached(s, done);
            }
            match take_term(&mut g, &mut names, term, Ghost(done)) {
                Ok(_) => {
                    proof {
                        let ts = term@;
                        assert(terms =~= (done + (seq![ts] + split_from(s, i + 1, i + 1))));
                        done = done.push(ts);
                        assert(done + split_from(s, i + 1, i + 1) =~= terms);
                    }
                },
                Err(e) => {
                    return Err(e);
                },
            }
            start = i + 1;
        } else {
            proof {
                assert(split_from(s, start as int, i as int) == split_from(s, start as int, i + 1));
            }
        }
        i += 1;
    }
    if start < n {
        let term = &tokens[start..n];
        proof {
            lemma_term_at(done, split_from(s, start as int, i as int), terms);
            lemma_reached(s, done);
        }
        match take_term(&mut g, &mut names, term, Ghost(done)) {
            Ok(_) => {
                proof {
                    done = done.push(term@);
                    assert(done =~= terms);
                }
            },
            Err(e) => {
                return Err(e);
            },
        }
    } else {
        proof {
            assert(done =~= terms);
        }
    }
    let mut vars: Vec<isize> = Vec::new();
    let mut k: usize = 0;
    while k < names.len()
        invariant
            0 <= k <= names.len(),
            names@.len() < isize::MAX,
            vars@ == Seq::new(k as nat, |j: int| j as isize),
        decreases names.len() - k,
    {
        vars.push(k as isize);
        k += 1;
        proof {
            assert(vars@ =~= Seq::new(k as nat, |j: int| j as isize));
        }
    }
    g.vars = vars;
    proof {
        assert(state_of(g, Seq::empty()) =~= (QueryState { names: Seq::empty(), ..run_terms(terms) }));
    }
    Ok((world, g))
}

/// Parses one term and adds it to the description.
fn take_term(
    g: &mut Generator,
    names: &mut Vec<String>,
    term: &[Token],
    Ghost(done): Ghost<Seq<Seq<Token>>>,
) -> (r: Result<(), TermError>)
    requires
        building(*old(g), old(names)@),
        state_of(*old(g), old(names)@) == run_terms(done),
        old(names)@.len() + 2 < isize::MAX,
        !term_stops(term@),
    ensures
        match r {
            Ok(_) => {
                &&& parses(term@)
                &&& building(*final(g), final(names)@)
                &&& state_of(*final(g), final(names)@) == run_terms(done.push(term@))
                &&& final(names)@.len() <= old(names)@.len() + 2
            },
            Err(_) => !parses(term@),
        },
{
    let ghost ts = term@;
    match parse_term(term) {
        Ok(t) => {
            proof {
                let c = choose|c: Term| spells(c, ts);
                lemma_spells_unique(t, c, ts);
                assert((done.push(ts)).drop_last() =~= done);
            }
            let t2 = transform_anyvars(t);
            add_term(g, names, t2);
            Ok(())
        },
        Err(e) => Err(e),
    }
}

/// The world is named by the first token.
pub open spec fn ident_is_world(s: Seq<Token>, world: String) -> bool {
    s.len() > 0 && crate::query_parser::ident_is(s[0], world@)
}

/// Once all terms before the next one parse, the next one does not stop the macro.
proof fn lemma_reached(s: Seq<Token>, done: Seq<Seq<Token>>)
    requires
        !query_stops(s),
        done.len() < query_terms(s).len(),
        forall|k: int| 0 <= k < done.len() ==> parses(#[trigger] done[k]),
        forall|k: int| 0 <= k < done.len() ==> done[k] == query_terms(s)[k],
    ensures
        !term_stops(query_terms(s)[done.len() as int]),
{
    let terms = query_terms(s);
    assert forall|j: int| 0 <= j < done.len() implies parses(#[trigger] terms[j]) by {
        assert(done[j] == terms[j]);
    }
}

proof fn lemma_term_at(done: Seq<Seq<Token>>, rest: Seq<Seq<Token>>, terms: Seq<Seq<Token>>)
    requires
        done + rest == terms,
        rest.len() > 0,
    ensures
        terms[done.len() as int] == rest[0],
        done.len() < terms.len(),
{
    assert(terms[done.len() as int] == (done + rest)[done.len() as int]);
}

/// A variable number among the first `n`.
pub open spec fn is_var(x: isize, n: int) -> bool {
    0 <= x < n
}

/// A relation side: a variable number among the first `n`, or any entity.
pub open spec fn is_side(x: isize, n: int) -> bool {
    x == ANYVAR || 0 <= x < n
}

pub open spec fn accessor_ok(a: AccessorView, n: int, opts: int) -> bool {
    match a {
        AccessorView::Component(_, x) => is_var(x, n),
        AccessorView::ComponentMut(_, x) => is_var(x, n),
        AccessorView::OutVar(x) => is_var(x, n),
        AccessorView::OptComponent(_, x, i) => is_var(x, n) && i < opts,
        AccessorView::OptMutComponent(_, x, i) => is_var(x, n) && i < opts,
        AccessorView::Singleton(_) => true,
        AccessorView::SingletonMut(_) => true,
    }
}

/// The description refers to its own variables only; optional components and
/// negated relations are numbered by position; a variable bound from outside is
/// bound to the entity of its own name.
pub open spec fn refers_to_own_vars(st: QueryState) -> bool {
    let n = st.names.len() as int;
    &&& forall|i: int| 0 <= i < st.components.len() ==> is_var(#[trigger] st.components[i].1, n)
    &&& forall|i: int| 0 <= i < st.uncomponents.len() ==> is_var(#[trigger] st.uncomponents[i].1, n)
    &&& forall|i: int|
        0 <= i < st.relations.len() ==> is_side(#[trigger] st.relations[i].1, n) && is_side(
            st.relations[i].2,
            n,
        )
    &&& forall|i: int|
        0 <= i < st.unrelations.len() ==> is_side(#[trigger] st.unrelations[i].1, n) && is_side(
            st.unrelations[i].2,
            n,
        ) && st.unrelations[i].3 == i
    &&& forall|i: int|
        0 <= i < st.unequals.len() ==> is_var(#[trigger] st.unequals[i].0, n) && is_var(st.unequals[i].1, n)
    &&& forall|i: int|
        0 <= i < st.opt_components.len() ==> is_var(#[trigger] st.opt_components[i].1, n)
            && st.opt_components[i].2 == i
    &&& forall|i: int|
        0 <= i < st.accessors.len() ==> accessor_ok(#[trigger] st.accessors[i], n, st.opt_components.len() as int)
    &&& forall|k: isize| #[trigger] st.prefills.contains_key(k) ==> is_var(k, n) && st.prefills[k] == st.names[k as int]
}

proof fn lemma_number_of(names: Seq<Seq<char>>, n: Seq<char>)
    requires
        names.len() + 1 < isize::MAX,
    ensures
        0 <= number_of(names, n) < with_name(names, n).len(),
        with_name(names, n)[number_of(names, n) as int] == n,
        names.len() <= with_name(names, n).len() <= names.len() + 1,
        names.is_prefix_of(with_name(names, n)),
{
    if names.contains(n) {
        let i = choose|i: int| 0 <= i < names.len() && names[i] == n;
    }
}

proof fn lemma_sides(names: Seq<Seq<char>>, r: RelationVarView)
    requires
        names.len() + 1 < isize::MAX,
    ensures
        is_side(side_number(names, r), side_names(names, r).len() as int),
        names.len() <= side_names(names, r).len() <= names.len() + 1,
        names.is_prefix_of(side_names(names, r)),
        r is InVar ==> side_names(names, r)[side_number(names, r) as int] == r->InVar_0,
{
    match r {
        RelationVarView::Var(n) => lemma_number_of(names, n),
        RelationVarView::InVar(n) => lemma_number_of(names, n),
        RelationVarView::AnyVar => {},
    }
}

/// Longer names keep the description referring to its own variables.
proof fn lemma_refs_more_names(st: QueryState, names: Seq<Seq<char>>)
    requires
        refers_to_own_vars(st),
        st.names.is_prefix_of(names),
    ensures
        refers_to_own_vars(QueryState { names, ..st }),
{
    let r = QueryState { names, ..st };
    assert forall|k: isize| #[trigger] r.prefills.contains_key(k) implies is_var(k, r.names.len() as int)
        && r.prefills[k] == r.names[k as int] by {
        assert(st.names[k as int] == r.names[k as int]);
    }
    assert forall|i: int| 0 <= i < r.accessors.len() implies accessor_ok(
        #[trigger] r.accessors[i],
        r.names.len() as int,
        r.opt_components.len() as int,
    ) by {
        assert(accessor_ok(st.accessors[i], st.names.len() as int, st.opt_components.len() as int));
    }
}

/// Binding variable `x` to `n` from outside keeps the description referring to its own variables.
proof fn lemma_refs_prefill(st: QueryState, x: isize, n: Seq<char>)
    requires
        refers_to_own_vars(st),
        is_var(x, st.names.len() as int),
        st.names[x as int] == n,
    ensures
        refers_to_own_vars(QueryState { prefills: st.prefills.insert(x, n), ..st }),
{
    let r = QueryState { prefills: st.prefills.insert(x, n), ..st };
    assert forall|k: isize| #[trigger] r.prefills.contains_key(k) implies is_var(k, r.names.len() as int)
        && r.prefills[k] == r.names[k as int] by {
        if k != x {
            assert(st.prefills.contains_key(k));
        }
    }
}

proof fn lemma_refs_component(st: QueryState, ty: Seq<char>, v: VarView, acc: Option<bool>)
    requires
        refers_to_own_vars(st),
        st.names.len() + 2 < isize::MAX,
    ensures
        ({
            let n = var_name(v);
            let x = number_of(st.names, n);
            let st2 = QueryState {
                names: with_name(st.names, n),
                prefills: var_prefills(st.prefills, st.names, v),
                components: st.components.push((ty, x)),
                ..st
            };
            &&& refers_to_own_vars(st2)
            &&& acc == Some(false) ==> refers_to_own_vars(QueryState { accessors: st.accessors.push(AccessorView::Component(ty, x)), ..st2 })
            &&& acc == Some(true) ==> refers_to_own_vars(QueryState { accessors: st.accessors.push(AccessorView::ComponentMut(ty, x)), ..st2 })
        }),
{
    let n = var_name(v);
    lemma_number_of(st.names, n);
    let x = number_of(st.names, n);
    let st1 = QueryState { names: with_name(st.names, n), ..st };
    lemma_refs_more_names(st, with_name(st.names, n));
    if v is InVar {
        lemma_refs_prefill(st1, x, n);
    }
    let st2 = QueryState {
        names: with_name(st.names, n),
        prefills: var_prefills(st.prefills, st.names, v),
        components: st.components.push((ty, x)),
        ..st
    };
    assert(refers_to_own_vars(st2));
}

proof fn lemma_refs_unequal(st: QueryState, a: VarView, b: VarView)
    requires
        refers_to_own_vars(st),
        st.names.len() + 2 < isize::MAX,
    ensures
        refers_to_own_vars(apply_term(st, TermView::ConstraintUnequal(a, b))),
{
    let na = with_name(st.names, var_name(a));
    lemma_number_of(st.names, var_name(a));
    lemma_number_of(na, var_name(b));
    let xa = number_of(st.names, var_name(a));
    let nb = with_name(na, var_name(b));
    lemma_refs_more_names(st, nb);
    let s1 = QueryState { names: nb, ..st };
    assert(nb[xa as int] == na[xa as int]);
    if a is InVar {
        lemma_refs_prefill(s1, xa, var_name(a));
    }
    let s2 = QueryState { prefills: var_prefills(st.prefills, st.names, a), ..s1 };
    let xb = number_of(na, var_name(b));
    if b is InVar {
        lemma_refs_prefill(s2, xb, var_name(b));
    }
    let s3 = QueryState { prefills: var_prefills(s2.prefills, na, b), ..s2 };
    lemma_refs_push_unequal(s3, (xa, xb));
    assert(apply_term(st, TermView::ConstraintUnequal(a, b)) == QueryState {
        unequals: s3.unequals.push((xa, xb)),
        ..s3
    });
}

proof fn lemma_refs_push_unequal(st: QueryState, e: (isize, isize))
    requires
        refers_to_own_vars(st),
        is_var(e.0, st.names.len() as int),
        is_var(e.1, st.names.len() as int),
    ensures
        refers_to_own_vars(QueryState { unequals: st.unequals.push(e), ..st }),
{
    let r = QueryState { unequals: st.unequals.push(e), ..st };
    assert forall|i: int| 0 <= i < r.unequals.len() implies is_var(#[trigger] r.unequals[i].0, r.names.len() as int)
        && is_var(r.unequals[i].1, r.names.len() as int) by {
        if i < st.unequals.len() {
            assert(r.unequals[i] == st.unequals[i]);
        }
    }
}

#[verifier::spinoff_prover]
#[verifier::rlimit(40)]
proof fn lemma_refs_relation(st: QueryState, ty: Seq<char>, a0: RelationVarView, b0: RelationVarView, negated: bool)
    requires
        refers_to_own_vars(st),
        st.names.len() + 2 < isize::MAX,
        st.unrelations.len() < usize::MAX,
    ensures
        refers_to_own_vars(apply_term(st, if negated {
            TermView::Unrelation(ty, a0, b0)
        } else {
            TermView::Relation(ty, a0, b0)
        })),
{
    let a = side(a0);
    let b = side(b0);
    let na = side_names(st.names, a);
    lemma_sides(st.names, a);
    lemma_sides(na, b);
    let nb = side_names(na, b);
    lemma_refs_more_names(st, nb);
    let s1 = QueryState { names: nb, ..st };
    if a is InVar {
        assert(nb[side_number(st.names, a) as int] == na[side_number(st.names, a) as int]);
        lemma_refs_prefill(s1, side_number(st.names, a), a->InVar_0);
    }
    let s2 = QueryState { prefills: side_prefills(st.prefills, st.names, a), ..s1 };
    if b is InVar {
        lemma_refs_prefill(s2, side_number(na, b), b->InVar_0);
    }
    let s3 = QueryState { prefills: side_prefills(side_prefills(st.prefills, st.names, a), na, b), ..s1 };
    assert(refers_to_own_vars(s3));
    let xa = side_number(st.names, a);
    let xb = side_number(na, b);
    assert(is_side(xa, nb.len() as int) && is_side(xb, nb.len() as int));
    if negated {
        let r = QueryState {
            unrelations: st.unrelations.push((ty, xa, xb, st.unrelations.len() as usize)),
            ..s3
        };
        assert(apply_term(st, TermView::Unrelation(ty, a0, b0)) == r);
        lemma_refs_push_unrelation(s3, (ty, xa, xb, st.unrelations.len() as usize));
    } else {
        let r = QueryState { relations: st.relations.push((ty, xa, xb)), ..s3 };
        assert(apply_term(st, TermView::Relation(ty, a0, b0)) == r);
        lemma_refs_push_relation(s3, (ty, xa, xb));
    }
}

proof fn lemma_refs_single(st: QueryState, t: TermView)
    requires
        refers_to_own_vars(st),
        st.names.len() + 2 < isize::MAX,
        st.opt_components.len() < usize::MAX,
        t is OutVar || t is Uncomponent || t is OptionalComponent || t is OptionalMutComponent,
    ensures
        refers_to_own_vars(apply_term(st, t)),
{
    let n = match t {
        TermView::OutVar(n) => n,
        TermView::Uncomponent(_, n) => n,
        TermView::OptionalComponent(_, n) => n,
        TermView::OptionalMutComponent(_, n) => n,
        _ => Seq::empty(),
    };
    lemma_number_of(st.names, n);
    lemma_refs_more_names(st, with_name(st.names, n));
    let s1 = QueryState { names: with_name(st.names, n), ..st };
    let x = number_of(st.names, n);
    let i = st.opt_components.len() as usize;
    if t is OutVar {
        lemma_refs_push_accessor(s1, AccessorView::OutVar(x));
        assert(apply_term(st, t) == QueryState { accessors: st.accessors.push(AccessorView::OutVar(x)), ..s1 });
    }
    if t is Uncomponent {
        lemma_refs_push_uncomponent(s1, (t->Uncomponent_0, x));
        assert(apply_term(st, t) == QueryState { uncomponents: st.uncomponents.push((t->Uncomponent_0, x)), ..s1 });
    }
    if t is OptionalComponent || t is OptionalMutComponent {
        let ty = if t is OptionalComponent {
            t->OptionalComponent_0
        } else {
            t->OptionalMutComponent_0
        };
        let acc = if t is OptionalComponent {
            AccessorView::OptComponent(ty, x, i)
        } else {
            AccessorView::OptMutComponent(ty, x, i)
        };
        lemma_refs_push_opt(s1, (ty, x, i));
        let s2 = QueryState { opt_components: st.opt_components.push((ty, x, i)), ..s1 };
        lemma_refs_push_accessor(s2, acc);
        assert(apply_term(st, t) == QueryState { accessors: st.accessors.push(acc), ..s2 });
    }
}

proof fn lemma_refs_push_relation(st: QueryState, e: (Seq<char>, isize, isize))
    requires
        refers_to_own_vars(st),
        is_side(e.1, st.names.len() as int),
        is_side(e.2, st.names.len() as int),
    ensures
        refers_to_own_vars(QueryState { relations: st.relations.push(e), ..st }),
{
    let r = QueryState { relations: st.relations.push(e), ..st };
    assert forall|i: int| 0 <= i < r.relations.len() implies is_side(#[trigger] r.relations[i].1, r.names.len() as int)
        && is_side(r.relations[i].2, r.names.len() as int) by {
        if i < st.relations.len() {
            assert(r.relations[i] == st.relations[i]);
        }
    }
}

proof fn lemma_refs_push_unrelation(st: QueryState, e: (Seq<char>, isize, isize, usize))
    requires
        refers_to_own_vars(st),
        is_side(e.1, st.names.len() as int),
        is_side(e.2, st.names.len() as int),
        e.3 == st.unrelations.len(),
    ensures
        refers_to_own_vars(QueryState { unrelations: st.unrelations.push(e), ..st }),
{
    let r = QueryState { unrelations: st.unrelations.push(e), ..st };
    assert forall|i: int| 0 <= i < r.unrelations.len() implies is_side(
        #[trigger] r.unrelations[i].1,
        r.names.len() as int,
    ) && is_side(r.unrelations[i].2, r.names.len() as int) && r.unrelations[i].3 == i by {
        if i < st.unrelations.len() {
            assert(r.unrelations[i] == st.unrelations[i]);
        }
    }
}

proof fn lemma_refs_push_uncomponent(st: QueryState, e: (Seq<char>, isize))
    requires
        refers_to_own_vars(st),
        is_var(e.1, st.names.len() as int),
    ensures
        refers_to_own_vars(QueryState { uncomponents: st.uncomponents.push(e), ..st }),
{
    let r = QueryState { uncomponents: st.uncomponents.push(e), ..st };
    assert forall|i: int| 0 <= i < r.uncomponents.len() implies is_var(#[trigger] r.uncomponents[i].1, r.names.len() as int) by {
        if i < st.uncomponents.len() {
            assert(r.uncomponents[i] == st.uncomponents[i]);
        }
    }
}

proof fn lemma_refs_push_opt(st: QueryState, e: (Seq<char>, isize, usize))
    requires
        refers_to_own_vars(st),
        is_var(e.1, st.names.len() as int),
        e.2 == st.opt_components.len(),
    ensures
        refers_to_own_vars(QueryState { opt_components: st.opt_components.push(e), ..st }),
{
    let r = QueryState { opt_components: st.opt_components.push(e), ..st };
    assert forall|i: int| 0 <= i < r.opt_components.len() implies is_var(
        #[trigger] r.opt_components[i].1,
        r.names.len() as int,
    ) && r.opt_components[i].2 == i by {
        if i < st.opt_components.len() {
            assert(r.opt_components[i] == st.opt_components[i]);
        }
    }
    assert forall|j: int| 0 <= j < r.accessors.len() implies accessor_ok(
        #[trigger] r.accessors[j],
        r.names.len() as int,
        r.opt_components.len() as int,
    ) by {
        assert(accessor_ok(st.accessors[j], st.names.len() as int, st.opt_components.len() as int));
    }
}

proof fn lemma_refs_push_accessor(st: QueryState, a: AccessorView)
    requires
        refers_to_own_vars(st),
        accessor_ok(a, st.names.len() as int, st.opt_components.len() as int),
    ensures
        refers_to_own_vars(QueryState { accessors: st.accessors.push(a), ..st }),
{
    let r = QueryState { accessors: st.accessors.push(a), ..st };
    assert forall|j: int| 0 <= j < r.accessors.len() implies accessor_ok(
        #[trigger] r.accessors[j],
        r.names.len() as int,
        r.opt_components.len() as int,
    ) by {
        if j < st.accessors.len() {
            assert(r.accessors[j] == st.accessors[j]);
        }
    }
}

/// Adding a term keeps the description referring to its own variables, and
/// mentions at most two new ones.
proof fn lemma_apply_keeps_refs(st: QueryState, t: TermView)
    requires
        refers_to_own_vars(st),
        st.names.len() + 2 < isize::MAX,
        st.unrelations.len() < usize::MAX,
        st.opt_components.len() < usize::MAX,
    ensures
        refers_to_own_vars(apply_term(st, t)),
        st.names.len() <= apply_term(st, t).names.len() <= st.names.len() + 2,
        apply_term(st, t).unrelations.len() <= st.unrelations.len() + 1,
        apply_term(st, t).opt_components.len() <= st.opt_components.len() + 1,
{
    match t {
        TermView::ComponentVar(ty, v) => {
            lemma_number_of(st.names, var_name(v));
            lemma_refs_component(st, ty, v, Some(false));
        },
        TermView::MutComponentVar(ty, v) => {
            lemma_number_of(st.names, var_name(v));
            lemma_refs_component(st, ty, v, Some(true));
        },
        TermView::NoOutComponentVar(ty, v) => {
            lemma_number_of(st.names, var_name(v));
            lemma_refs_component(st, ty, v, None);
        },
        TermView::ConstraintUnequal(a, b) => {
            lemma_number_of(st.names, var_name(a));
            lemma_number_of(with_name(st.names, var_name(a)), var_name(b));
            lemma_refs_unequal(st, a, b);
        },
        TermView::Relation(ty, a0, b0) => {
            lemma_sides(st.names, side(a0));
            lemma_sides(side_names(st.names, side(a0)), side(b0));
            lemma_refs_relation(st, ty, a0, b0, false);
        },
        TermView::Unrelation(ty, a0, b0) => {
            lemma_sides(st.names, side(a0));
            lemma_sides(side_names(st.names, side(a0)), side(b0));
            lemma_refs_relation(st, ty, a0, b0, true);
        },
        TermView::OutVar(n) => {
            lemma_number_of(st.names, n);
            lemma_refs_single(st, t);
        },
        TermView::Uncomponent(_, n) => {
            lemma_number_of(st.names, n);
            lemma_refs_single(st, t);
        },
        TermView::OptionalComponent(_, n) => {
            lemma_number_of(st.names, n);
            lemma_refs_single(st, t);
        },
        TermView::OptionalMutComponent(_, n) => {
            lemma_number_of(st.names, n);
            lemma_refs_single(st, t);
        },
    }
}

/// Every variable that the description of a query names is one of its
/// variables (or, on a side of a relation, any entity); a variable bound from
/// outside is bound to the entity of its own name.
pub proof fn lemma_description_refers_to_own_vars(terms: Seq<Seq<Token>>)
    requires
        2 * terms.len() + 2 < isize::MAX,
    ensures
        refers_to_own_vars(run_terms(terms)),
        run_terms(terms).names.len() <= 2 * terms.len(),
        run_terms(terms).unrelations.len() <= terms.len(),
        run_terms(terms).opt_components.len() <= terms.len(),
    decreases terms.len(),
{
    if terms.len() > 0 {
        lemma_description_refers_to_own_vars(terms.drop_last());
        lemma_apply_keeps_refs(run_terms(terms.drop_last()), transformed(term_of(terms.last())));
    }
}


/// A term that requires a component of its variable: `T`, `T(v)`, `mut T`, `_ T`.
pub open spec fn requires_component(t: TermView) -> bool {
    t is ComponentVar || t is MutComponentVar || t is NoOutComponentVar
}

/// A term that asks for an optional component: `T?`, `mut T?`.
pub open spec fn optional_component(t: TermView) -> bool {
    t is OptionalComponent || t is OptionalMutComponent
}

/// The type a term names (for the kinds that name one).
pub open spec fn term_type(t: TermView) -> Seq<char> {
    match t {
        TermView::ComponentVar(ty, _) => ty,
        TermView::MutComponentVar(ty, _) => ty,
        TermView::NoOutComponentVar(ty, _) => ty,
        TermView::Relation(ty, _, _) => ty,
        TermView::Uncomponent(ty, _) => ty,
        TermView::Unrelation(ty, _, _) => ty,
        TermView::OptionalComponent(ty, _) => ty,
        TermView::OptionalMutComponent(ty, _) => ty,
        _ => Seq::empty(),
    }
}

/// Some term requires a component of type `ty`.
pub open spec fn has_component_term(terms: Seq<Seq<Token>>, ty: Seq<char>) -> bool {
    exists|k: int| 0 <= k < terms.len() && requires_component(#[trigger] term_of(terms[k])) && term_type(term_of(terms[k])) == ty
}

/// Some term relates two variables by the relation `ty`.
pub open spec fn has_relation_term(terms: Seq<Seq<Token>>, ty: Seq<char>) -> bool {
    exists|k: int| 0 <= k < terms.len() && #[trigger] term_of(terms[k]) is Relation && term_type(term_of(terms[k])) == ty
}

/// Some term negates the relation `ty`.
pub open spec fn has_unrelation_term(terms: Seq<Seq<Token>>, ty: Seq<char>) -> bool {
    exists|k: int| 0 <= k < terms.len() && #[trigger] term_of(terms[k]) is Unrelation && term_type(term_of(terms[k])) == ty
}

/// How many of the terms spell a term of the given kind.
pub open spec fn count_kind(terms: Seq<Seq<Token>>, kind: spec_fn(TermView) -> bool) -> nat
    decreases terms.len(),
{
    if terms.len() == 0 {
        0
    } else {
        count_kind(terms.drop_last(), kind) + if kind(term_of(terms.last())) {
            1nat
        } else {
            0nat
        }
    }
}

/// Law: each kind of term goes to its own list of the description, one entry per term:
/// required components, relations, negated components, negated relations, optional
/// components and unequalities are counted by the terms of that kind, and nothing else
/// adds to them. Each negated component names the type of a negated term, and each
/// required component, relation and negated relation the type of a term of its own kind.
/// `read_query` describes a query by `run_terms` of its terms, so this holds of its result.
pub proof fn lemma_terms_sorted_by_kind(terms: Seq<Seq<Token>>)
    ensures
        run_terms(terms).components.len() == count_kind(terms, |t: TermView| requires_component(t)),
        run_terms(terms).uncomponents.len() == count_kind(terms, |t: TermView| t is Uncomponent),
        run_terms(terms).relations.len() == count_kind(terms, |t: TermView| t is Relation),
        run_terms(terms).unrelations.len() == count_kind(terms, |t: TermView| t is Unrelation),
        run_terms(terms).opt_components.len() == count_kind(terms, |t: TermView| optional_component(t)),
        run_terms(terms).unequals.len() == count_kind(terms, |t: TermView| t is ConstraintUnequal),
        forall|j: int|
            0 <= j < run_terms(terms).uncomponents.len() ==> exists|k: int|
                0 <= k < terms.len() && #[trigger] term_of(terms[k]) is Uncomponent && term_of(terms[k])->Uncomponent_0
                    == (#[trigger] run_terms(terms).uncomponents[j]).0,
        forall|j: int|
            0 <= j < run_terms(terms).components.len() ==> has_component_term(terms, #[trigger] run_terms(terms).components[j].0),
        forall|j: int|
            0 <= j < run_terms(terms).relations.len() ==> has_relation_term(terms, #[trigger] run_terms(terms).relations[j].0),
        forall|j: int|
            0 <= j < run_terms(terms).unrelations.len() ==> has_unrelation_term(terms, #[trigger] run_terms(terms).unrelations[j].0),
    decreases terms.len(),
{
    if terms.len() > 0 {
        let prev = terms.drop_last();
        lemma_terms_sorted_by_kind(prev);
        let t = term_of(terms.last());
        let st = run_terms(prev);
        let r = run_terms(terms);
        assert(r == apply_term(st, transformed(t)));
        assert forall|j: int| 0 <= j < r.uncomponents.len() implies exists|k: int|
            0 <= k < terms.len() && #[trigger] term_of(terms[k]) is Uncomponent && term_of(terms[k])->Uncomponent_0
                == (#[trigger] r.uncomponents[j]).0 by {
            if j < st.uncomponents.len() {
                assert(r.uncomponents[j] == st.uncomponents[j]);
                assert(st.uncomponents[j] == st.uncomponents[j]);
                let k = choose|k: int|
                    0 <= k < prev.len() && #[trigger] term_of(prev[k]) is Uncomponent && term_of(prev[k])->Uncomponent_0
                        == st.uncomponents[j].0;
                assert(terms[k] == prev[k]);
            } else {
                assert(terms[terms.len() - 1] == terms.last());
            }
        }
        assert forall|j: int| 0 <= j < r.components.len() implies has_component_term(terms, #[trigger] r.components[j].0) by {
            if j < st.components.len() {
                assert(r.components[j] == st.components[j]);
                assert(has_component_term(prev, st.components[j].0));
                let k = choose|k: int|
                    0 <= k < prev.len() && requires_component(#[trigger] term_of(prev[k])) && term_type(term_of(prev[k]))
                        == st.components[j].0;
                assert(terms[k] == prev[k]);
                assert(requires_component(term_of(terms[k])) && term_type(term_of(terms[k])) == r.components[j].0);
            } else {
                assert(terms[terms.len() - 1] == terms.last());
                assert(requires_component(t) && term_type(t) == r.components[j].0) by {
                    match t {
                        TermView::ComponentVar(..) => {},
                        TermView::MutComponentVar(..) => {},
                        TermView::NoOutComponentVar(..) => {},
                        _ => { assert(r.components == st.components); },
                    }
                }
                let kl = terms.len() - 1;
                assert(term_of(terms[kl]) == t);
                assert(requires_component(term_of(terms[kl])) && term_type(term_of(terms[kl])) == r.components[j].0);
            }
        }
        assert forall|j: int| 0 <= j < r.relations.len() implies has_relation_term(terms, #[trigger] r.relations[j].0) by {
            if j < st.relations.len() {
                assert(r.relations[j] == st.relations[j]);
                assert(has_relation_term(prev, st.relations[j].0));
                let k = choose|k: int|
                    0 <= k < prev.len() && #[trigger] term_of(prev[k]) is Relation && term_type(term_of(prev[k]))
                        == st.relations[j].0;
                assert(terms[k] == prev[k]);
                assert(term_of(terms[k]) is Relation && term_type(term_of(terms[k])) == r.relations[j].0);
            } else {
                assert(terms[terms.len() - 1] == terms.last());
                assert(t is Relation && term_type(t) == r.relations[j].0) by {
                    match t {
                        TermView::Relation(..) => {},
                        _ => { assert(r.relations == st.relations); },
                    }
                }
                let kl = terms.len() - 1;
                assert(term_of(terms[kl]) == t);
                assert(term_of(terms[kl]) is Relation && term_type(term_of(terms[kl])) == r.relations[j].0);
            }
        }
        assert forall|j: int| 0 <= j < r.unrelations.len() implies has_unrelation_term(terms, #[trigger] r.unrelations[j].0) by {
            if j < st.unrelations.len() {
                assert(r.unrelations[j] == st.unrelations[j]);
                assert(has_unrelation_term(prev, st.unrelations[j].0));
                let k = choose|k: int|
                    0 <= k < prev.len() && #[trigger] term_of(prev[k]) is Unrelation && term_type(term_of(prev[k]))
                        == st.unrelations[j].0;
                assert(terms[k] == prev[k]);
                assert(term_of(terms[k]) is Unrelation && term_type(term_of(terms[k])) == r.unrelations[j].0);
            } else {
                assert(t is Unrelation && term_type(t) == r.unrelations[j].0) by {
                    match t {
                        TermView::Unrelation(..) => {},
                        _ => { assert(r.unrelations == st.unrelations); },
                    }
                }
                let kl = terms.len() - 1;
                assert(terms[kl] == terms.last());
                assert(term_of(terms[kl]) is Unrelation && term_type(term_of(terms[kl])) == r.unrelations[j].0);
            }
        }
    }
}
} // verus!
