//! The grammar of one term of a query.
//!
//! A query is a comma separated list of terms such as `Unit`, `mut Health(e)`,
//! `Attack(a, *b)`, `!Flying`, `&e` or `a != b`. The macro hands the tokens of
//! one term to `parse_term`, which tells which term they spell.
use vstd::prelude::*;

verus! {

/// A token as the query macro receives it: an identifier (keywords and `_`
/// included), a punctuation character, a literal, or a delimited group.
#[derive(Debug, PartialEq, Eq)]
pub enum Token {
    Ident(String),
    Punct(char),
    Literal(String),
    Group(Vec<Token>),
}

#[derive(Debug, PartialEq, Eq)]
pub enum VarKind {
    /// variable that just exists in the query
    Var(String),
    /// variable that is coming into the query from an outside scope
    /// marked with a * before its name in the query syntax
    InVar(String),
}

#[derive(Debug, PartialEq, Eq)]
pub enum RelationVarKind {
    /// variable that just exists in the query
    Var(String),
    /// variable that is coming into the query from an outside scope
    /// marked with a * before its name in the query syntax
    InVar(String),
    /// just a _
    AnyVar,
}

#[derive(Debug, PartialEq, Eq)]
pub enum Term {
    /// Type, Variable
    ComponentVar(String, VarKind),
    /// Type, Variable
    MutComponentVar(String, VarKind),
    /// Type, Variable
    /// but this Component won't be in the output tuple
    NoOutComponentVar(String, VarKind),
    /// Type, Variable, Variable
    Relation(String, RelationVarKind, RelationVarKind),
    /// VariableName
    OutVar(String),
    /// VarA, VarB
    ConstraintUnequal(VarKind, VarKind),
    /// Type, VariableName
    Uncomponent(String, String),
    /// Type, Variable, Variable
    Unrelation(String, RelationVarKind, RelationVarKind),
    /// Type, VariableName
    OptionalComponent(String, String),
    /// Type, VariableName
    OptionalMutComponent(String, String),
}

/// The tokens spell no term.
#[derive(Debug, PartialEq, Eq)]
pub struct TermError {}

/// A variable as its name alone.
pub enum VarView {
    Var(Seq<char>),
    InVar(Seq<char>),
}

pub enum RelationVarView {
    Var(Seq<char>),
    InVar(Seq<char>),
    AnyVar,
}

/// A term with its names as character sequences.
pub enum TermView {
    ComponentVar(Seq<char>, VarView),
    MutComponentVar(Seq<char>, VarView),
    NoOutComponentVar(Seq<char>, VarView),
    Relation(Seq<char>, RelationVarView, RelationVarView),
    OutVar(Seq<char>),
    ConstraintUnequal(VarView, VarView),
    Uncomponent(Seq<char>, Seq<char>),
    Unrelation(Seq<char>, RelationVarView, RelationVarView),
    OptionalComponent(Seq<char>, Seq<char>),
    OptionalMutComponent(Seq<char>, Seq<char>),
}

impl View for VarKind {
    type V = VarView;

    open spec fn view(&self) -> VarView {
        match self {
            VarKind::Var(v) => VarView::Var(v@),
            VarKind::InVar(v) => VarView::InVar(v@),
        }
    }
}

impl View for RelationVarKind {
    type V = RelationVarView;

    open spec fn view(&self) -> RelationVarView {
        match self {
            RelationVarKind::Var(v) => RelationVarView::Var(v@),
            RelationVarKind::InVar(v) => RelationVarView::InVar(v@),
            RelationVarKind::AnyVar => RelationVarView::AnyVar,
        }
    }
}

impl View for Term {
    type V = TermView;

    open spec fn view(&self) -> TermView {
        match self {
            Term::ComponentVar(ty, v) => TermView::ComponentVar(ty@, v@),
            Term::MutComponentVar(ty, v) => TermView::MutComponentVar(ty@, v@),
            Term::NoOutComponentVar(ty, v) => TermView::NoOutComponentVar(ty@, v@),
            Term::Relation(ty, a, b) => TermView::Relation(ty@, a@, b@),
            Term::OutVar(v) => TermView::OutVar(v@),
            Term::ConstraintUnequal(a, b) => TermView::ConstraintUnequal(a@, b@),
            Term::Uncomponent(ty, v) => TermView::Uncomponent(ty@, v@),
            Term::Unrelation(ty, a, b) => TermView::Unrelation(ty@, a@, b@),
            Term::OptionalComponent(ty, v) => TermView::OptionalComponent(ty@, v@),
            Term::OptionalMutComponent(ty, v) => TermView::OptionalMutComponent(ty@, v@),
        }
    }
}

pub open spec fn ident_is(t: Token, name: Seq<char>) -> bool {
    match t {
        Token::Ident(s) => s@ == name,
        _ => false,
    }
}

pub open spec fn punct_is(t: Token, c: char) -> bool {
    match t {
        Token::Punct(p) => p == c,
        _ => false,
    }
}

pub open spec fn is_group(t: Token) -> bool {
    t is Group
}

/// The tokens inside a group; empty for any other token.
pub open spec fn inner(t: Token) -> Seq<Token> {
    match t {
        Token::Group(g) => g@,
        _ => Seq::empty(),
    }
}

/// The variable a term without a variable applies to.
pub open spec fn this_name() -> Seq<char> {
    seq!['t', 'h', 'i', 's']
}

pub open spec fn mut_word() -> Seq<char> {
    seq!['m', 'u', 't']
}

pub open spec fn skip_word() -> Seq<char> {
    seq!['_']
}

/// `vk` is the plain variable `name`.
pub open spec fn var_named(vk: VarKind, name: Seq<char>) -> bool {
    match vk {
        VarKind::Var(v) => v@ == name,
        VarKind::InVar(_) => false,
    }
}

pub open spec fn var_len(vk: VarKind) -> int {
    match vk {
        VarKind::Var(_) => 1,
        VarKind::InVar(_) => 2,
    }
}

/// `s` is `v` for a plain variable, `*v` for one from outside the query.
pub open spec fn var_spelled(vk: VarKind, s: Seq<Token>) -> bool {
    match vk {
        VarKind::Var(v) => s.len() == 1 && ident_is(s[0], v@),
        VarKind::InVar(v) => s.len() == 2 && punct_is(s[0], '*') && ident_is(s[1], v@),
    }
}

pub open spec fn rvar_len(r: RelationVarKind) -> int {
    match r {
        RelationVarKind::Var(_) => 1,
        RelationVarKind::InVar(_) => 2,
        RelationVarKind::AnyVar => 0,
    }
}

/// As `var_spelled`; the grammar itself never produces `AnyVar`.
pub open spec fn rvar_spelled(r: RelationVarKind, s: Seq<Token>) -> bool {
    match r {
        RelationVarKind::Var(v) => s.len() == 1 && ident_is(s[0], v@),
        RelationVarKind::InVar(v) => s.len() == 2 && punct_is(s[0], '*') && ident_is(s[1], v@),
        RelationVarKind::AnyVar => false,
    }
}

/// `g` is `a , b`; with `open_end` it only starts with it.
pub open spec fn pair_spelled(
    a: RelationVarKind,
    b: RelationVarKind,
    g: Seq<Token>,
    open_end: bool,
) -> bool {
    let la = rvar_len(a);
    let n = la + 1 + rvar_len(b);
    &&& if open_end {
        g.len() >= n
    } else {
        g.len() == n
    }
    &&& rvar_spelled(a, g.subrange(0, la))
    &&& punct_is(g[la], ',')
    &&& rvar_spelled(b, g.subrange(la + 1, n))
}

/// The group of a relation `T(..)`: exactly `a , b`, or starting with `*a , *b`.
pub open spec fn relation_pair(a: RelationVarKind, b: RelationVarKind, g: Seq<Token>) -> bool {
    pair_spelled(a, b, g, a is InVar && b is InVar)
}

/// The group of a negated relation `!T(..)`: exactly `a , b`, or starting with
/// `*a , b` or `a , *b`.
pub open spec fn unrelation_pair(a: RelationVarKind, b: RelationVarKind, g: Seq<Token>) -> bool {
    !(a is InVar && b is InVar) && pair_spelled(a, b, g, a is InVar || b is InVar)
}

/// The group of `word T(...)`: exactly `v`, or starting with `*v`.
pub open spec fn prefixed_group(vk: VarKind, g: Seq<Token>) -> bool {
    match vk {
        VarKind::Var(v) => g.len() == 1 && ident_is(g[0], v@),
        VarKind::InVar(v) => g.len() >= 2 && punct_is(g[0], '*') && ident_is(g[1], v@),
    }
}

/// `word T` or `word T(var)`, `word` being `mut` or `_`.
pub open spec fn prefixed_component(s: Seq<Token>, word: Seq<char>, ty: String, vk: VarKind) -> bool {
    ||| s.len() == 2 && ident_is(s[0], word) && ident_is(s[1], ty@) && var_named(vk, this_name())
    ||| s.len() == 3 && ident_is(s[0], word) && ident_is(s[1], ty@) && is_group(s[2])
        && prefixed_group(vk, inner(s[2]))
}

/// The group holds exactly one identifier, `v`.
pub open spec fn single_ident_group(t: Token, v: Seq<char>) -> bool {
    is_group(t) && inner(t).len() == 1 && ident_is(inner(t)[0], v)
}

/// The tokens `s` spell the term `t`.
pub open spec fn spells(t: Term, s: Seq<Token>) -> bool {
    match t {
        Term::ComponentVar(ty, vk) => {
            ||| s.len() == 1 && ident_is(s[0], ty@) && var_named(vk, this_name())
            ||| s.len() == 2 && ident_is(s[0], ty@) && is_group(s[1]) && var_spelled(vk, inner(s[1]))
        },
        Term::MutComponentVar(ty, vk) => prefixed_component(s, mut_word(), ty, vk),
        Term::NoOutComponentVar(ty, vk) => prefixed_component(s, skip_word(), ty, vk),
        Term::Relation(ty, a, b) => {
            &&& s.len() == 2
            &&& ident_is(s[0], ty@)
            &&& is_group(s[1])
            &&& relation_pair(a, b, inner(s[1]))
        },
        Term::OutVar(v) => s.len() == 2 && punct_is(s[0], '&') && ident_is(s[1], v@),
        Term::ConstraintUnequal(a, b) => {
            let la = var_len(a);
            &&& s.len() == la + 2 + var_len(b)
            &&& var_spelled(a, s.subrange(0, la))
            &&& punct_is(s[la], '!')
            &&& punct_is(s[la + 1], '=')
            &&& var_spelled(b, s.subrange(la + 2, s.len() as int))
        },
        Term::Uncomponent(ty, v) => {
            ||| s.len() == 2 && punct_is(s[0], '!') && ident_is(s[1], ty@) && v@ == this_name()
            ||| s.len() == 3 && punct_is(s[0], '!') && ident_is(s[1], ty@) && single_ident_group(s[2], v@)
        },
        Term::Unrelation(ty, a, b) => {
            &&& s.len() == 3
            &&& punct_is(s[0], '!')
            &&& ident_is(s[1], ty@)
            &&& is_group(s[2])
            &&& unrelation_pair(a, b, inner(s[2]))
        },
        Term::OptionalComponent(ty, v) => {
            ||| s.len() == 2 && ident_is(s[0], ty@) && punct_is(s[1], '?') && v@ == this_name()
            ||| s.len() == 3 && ident_is(s[0], ty@) && single_ident_group(s[1], v@) && punct_is(s[2], '?')
        },
        Term::OptionalMutComponent(ty, v) => {
            ||| s.len() == 3 && ident_is(s[0], mut_word()) && ident_is(s[1], ty@) && punct_is(s[2], '?')
                && v@ == this_name()
            ||| s.len() == 4 && ident_is(s[0], mut_word()) && ident_is(s[1], ty@)
                && single_ident_group(s[2], v@) && punct_is(s[3], '?')
        },
    }
}

/// Tokens spell at most one term.
pub proof fn lemma_spells_unique(t1: Term, t2: Term, s: Seq<Token>)
    requires
        spells(t1, s),
        spells(t2, s),
    ensures
        t1@ == t2@,
{
}

/// `T()`: a type followed by an empty group, on which the macro stops.
pub open spec fn term_panics(s: Seq<Token>) -> bool {
    s.len() == 2 && s[0] is Ident && is_group(s[1]) && inner(s[1]).len() == 0
}

/// `s@ == w@`
fn word_is(s: &String, w: &str) -> (r: bool)
    ensures
        r == (s@ == w@),
{
    let o: String = w.to_owned();
    *s == o
}

fn this_string() -> (r: String)
    ensures
        r@ == this_name(),
{
    proof {
        reveal_strlit("this");
        assert("this"@ =~= this_name());
    }
    "this".to_owned()
}

/// `v` or `*v`, exactly.
fn group_var(g: &Vec<Token>) -> (r: Option<VarKind>)
    ensures
        match r {
            Some(vk) => var_spelled(vk, g@),
            None => forall|vk: VarKind| !var_spelled(vk, g@),
        },
{
    if g.len() == 1 {
        match &g[0] {
            Token::Ident(v) => Some(VarKind::Var(v.clone())),
            _ => None,
        }
    } else if g.len() == 2 {
        match (&g[0], &g[1]) {
            (Token::Punct(c), Token::Ident(v)) => {
                if *c == '*' {
                    Some(VarKind::InVar(v.clone()))
                } else {
                    None
                }
            },
            _ => None,
        }
    } else {
        None
    }
}

/// The relation variable spelled at position `i` of `g`, and how many tokens it takes.
fn rvar_at(g: &Vec<Token>, i: usize) -> (r: Option<(RelationVarKind, usize)>)
    ensures
        match r {
            Some((rv, l)) => {
                &&& l == rvar_len(rv)
                &&& i + l <= g.len()
                &&& rvar_spelled(rv, g@.subrange(i as int, i + l))
                &&& forall|r2: RelationVarKind|
                    i + rvar_len(r2) <= g.len() && rvar_spelled(r2, g@.subrange(i as int, i + rvar_len(r2)))
                        ==> rvar_len(r2) == l && (r2 is InVar <==> rv is InVar)
            },
            None => forall|r2: RelationVarKind|
                !(i + rvar_len(r2) <= g.len() && rvar_spelled(r2, g@.subrange(i as int, i + rvar_len(r2)))),
        },
{
    if i >= g.len() {
        return None;
    }
    match &g[i] {
        Token::Ident(v) => {
            let rv = RelationVarKind::Var(v.clone());
            proof {
                assert(g@.subrange(i as int, i + 1)[0] == g@[i as int]);
                assert forall|r2: RelationVarKind|
                    i + rvar_len(r2) <= g.len() && rvar_spelled(r2, g@.subrange(i as int, i + rvar_len(r2)))
                    implies rvar_len(r2) == 1 && !(r2 is InVar) by {
                    if r2 is InVar {
                        assert(g@.subrange(i as int, i + 2)[0] == g@[i as int]);
                    }
                }
            }
            Some((rv, 1))
        },
        Token::Punct(c) => {
            if *c == '*' && i + 1 < g.len() {
                match &g[i + 1] {
                    Token::Ident(v) => {
                        let rv = RelationVarKind::InVar(v.clone());
                        proof {
                            let sub = g@.subrange(i as int, i + 2);
                            assert(sub[0] == g@[i as int]);
                            assert(sub[1] == g@[i + 1]);
                            assert forall|r2: RelationVarKind|
                                i + rvar_len(r2) <= g.len() && rvar_spelled(
                                    r2,
                                    g@.subrange(i as int, i + rvar_len(r2)),
                                ) implies rvar_len(r2) == 2 && r2 is InVar by {
                                assert(g@.subrange(i as int, i + rvar_len(r2))[0] == g@[i as int]);
                            }
                        }
                        Some((rv, 2))
                    },
                    _ => {
                        proof {
                            assert forall|r2: RelationVarKind|
                                !(i + rvar_len(r2) <= g.len() && rvar_spelled(
                                    r2,
                                    g@.subrange(i as int, i + rvar_len(r2)),
                                )) by {
                                let sub = g@.subrange(i as int, i + rvar_len(r2));
                                if i + rvar_len(r2) <= g.len() && rvar_len(r2) > 0 {
                                    assert(sub[0] == g@[i as int]);
                                    if rvar_len(r2) == 2 {
                                        assert(sub[1] == g@[i + 1]);
                                    }
                                }
                            }
                        }
                        None
                    },
                }
            } else {
                proof {
                    assert forall|r2: RelationVarKind|
                        !(i + rvar_len(r2) <= g.len() && rvar_spelled(
                            r2,
                            g@.subrange(i as int, i + rvar_len(r2)),
                        )) by {
                        let sub = g@.subrange(i as int, i + rvar_len(r2));
                        if i + rvar_len(r2) <= g.len() && rvar_len(r2) > 0 {
                            assert(sub[0] == g@[i as int]);
                        }
                    }
                }
                None
            }
        },
        _ => {
            proof {
                assert forall|r2: RelationVarKind|
                    !(i + rvar_len(r2) <= g.len() && rvar_spelled(
                        r2,
                        g@.subrange(i as int, i + rvar_len(r2)),
                    )) by {
                    let sub = g@.subrange(i as int, i + rvar_len(r2));
                    if i + rvar_len(r2) <= g.len() && rvar_len(r2) > 0 {
                        assert(sub[0] == g@[i as int]);
                    }
                }
            }
            None
        },
    }
}

/// `g` starts with `a , b`.
fn pair_start(g: &Vec<Token>) -> (r: Option<(RelationVarKind, RelationVarKind)>)
    ensures
        match r {
            Some((a, b)) => {
                &&& pair_spelled(a, b, g@, true)
                &&& forall|a2: RelationVarKind, b2: RelationVarKind|
                    pair_spelled(a2, b2, g@, true) ==> (a2 is InVar <==> a is InVar) && (b2 is InVar
                        <==> b is InVar) && rvar_len(a2) == rvar_len(a) && rvar_len(b2) == rvar_len(b)
            },
            None => forall|a2: RelationVarKind, b2: RelationVarKind| !pair_spelled(a2, b2, g@, true),
        },
{
    match rvar_at(g, 0) {
        None => None,
        Some((a, la)) => {
            if la < g.len() && is_punct(&g[la], ',') {
                match rvar_at(g, la + 1) {
                    None => {
                        proof {
                            assert forall|a2: RelationVarKind, b2: RelationVarKind|
                                !pair_spelled(a2, b2, g@, true) by {
                                if pair_spelled(a2, b2, g@, true) {
                                    let n = rvar_len(a2) + 1 + rvar_len(b2);
                                    assert(g@.subrange(0, rvar_len(a2)) == g@.subrange(0, 0 + rvar_len(a2)));
                                    assert(g@.subrange(la + 1, n) == g@.subrange(la + 1, la + 1 + rvar_len(b2)));
                                }
                            }
                        }
                        None
                    },
                    Some((b, lb)) => {
                        proof {
                            assert(g@.subrange(0, la as int) == g@.subrange(0, 0 + la));
                            assert forall|a2: RelationVarKind, b2: RelationVarKind|
                                pair_spelled(a2, b2, g@, true) implies (a2 is InVar <==> a is InVar) && (b2 is InVar
                                    <==> b is InVar) && rvar_len(a2) == rvar_len(a) && rvar_len(b2) == rvar_len(b) by {
                                let n = rvar_len(a2) + 1 + rvar_len(b2);
                                assert(g@.subrange(0, rvar_len(a2)) == g@.subrange(0, 0 + rvar_len(a2)));
                                assert(g@.subrange(la + 1, n) == g@.subrange(la + 1, la + 1 + rvar_len(b2)));
                            }
                        }
                        Some((a, b))
                    },
                }
            } else {
                proof {
                    assert forall|a2: RelationVarKind, b2: RelationVarKind|
                        !pair_spelled(a2, b2, g@, true) by {
                        if pair_spelled(a2, b2, g@, true) {
                            assert(g@.subrange(0, rvar_len(a2)) == g@.subrange(0, 0 + rvar_len(a2)));
                        }
                    }
                }
                None
            }
        },
    }
}

fn is_invar(r: &RelationVarKind) -> (b: bool)
    ensures
        b == (*r is InVar),
        *r is InVar ==> rvar_len(*r) == 2,
        *r is Var ==> rvar_len(*r) == 1,
{
    match r {
        RelationVarKind::InVar(_) => true,
        _ => false,
    }
}

/// See `relation_pair`.
fn relation_group(g: &Vec<Token>) -> (r: Option<(RelationVarKind, RelationVarKind)>)
    ensures
        match r {
            Some((a, b)) => relation_pair(a, b, g@),
            None => forall|a: RelationVarKind, b: RelationVarKind| !relation_pair(a, b, g@),
        },
{
    match pair_start(g) {
        None => {
            proof {
                assert forall|a2: RelationVarKind, b2: RelationVarKind| !relation_pair(a2, b2, g@) by {
                    if relation_pair(a2, b2, g@) {
                        assert(pair_spelled(a2, b2, g@, true));
                    }
                }
            }
            None
        },
        Some((a, b)) => {
            let ia = is_invar(&a);
            let ib = is_invar(&b);
            let la: usize = if ia { 2 } else { 1 };
            let lb: usize = if ib { 2 } else { 1 };
            if (ia && ib) || g.len() == la + 1 + lb {
                Some((a, b))
            } else {
                proof {
                    assert forall|a2: RelationVarKind, b2: RelationVarKind| !relation_pair(a2, b2, g@) by {
                        if relation_pair(a2, b2, g@) {
                            assert(pair_spelled(a2, b2, g@, true));
                        }
                    }
                }
                None
            }
        },
    }
}

/// See `unrelation_pair`.
fn unrelation_group(g: &Vec<Token>) -> (r: Option<(RelationVarKind, RelationVarKind)>)
    ensures
        match r {
            Some((a, b)) => unrelation_pair(a, b, g@),
            None => forall|a: RelationVarKind, b: RelationVarKind| !unrelation_pair(a, b, g@),
        },
{
    match pair_start(g) {
        None => {
            proof {
                assert forall|a2: RelationVarKind, b2: RelationVarKind| !unrelation_pair(a2, b2, g@) by {
                    if unrelation_pair(a2, b2, g@) {
                        assert(pair_spelled(a2, b2, g@, true));
                    }
                }
            }
            None
        },
        Some((a, b)) => {
            let ia = is_invar(&a);
            let ib = is_invar(&b);
            let la: usize = if ia { 2 } else { 1 };
            let lb: usize = if ib { 2 } else { 1 };
            if ia && ib {
                proof {
                    assert forall|a2: RelationVarKind, b2: RelationVarKind| !unrelation_pair(a2, b2, g@) by {
                        if unrelation_pair(a2, b2, g@) {
                            assert(pair_spelled(a2, b2, g@, true));
                        }
                    }
                }
                None
            } else if ia || ib || g.len() == la + 1 + lb {
                Some((a, b))
            } else {
                proof {
                    assert forall|a2: RelationVarKind, b2: RelationVarKind| !unrelation_pair(a2, b2, g@) by {
                        if unrelation_pair(a2, b2, g@) {
                            assert(pair_spelled(a2, b2, g@, true));
                        }
                    }
                }
                None
            }
        },
    }
}

pub(crate) fn is_punct(t: &Token, c: char) -> (r: bool)
    ensures
        r == punct_is(*t, c),
{
    match t {
        Token::Punct(p) => *p == c,
        _ => false,
    }
}

fn is_mut_word(s: &String) -> (r: bool)
    ensures
        r == (s@ == mut_word()),
{
    proof {
        reveal_strlit("mut");
        assert("mut"@ =~= mut_word());
    }
    word_is(s, "mut")
}

fn is_skip_word(s: &String) -> (r: bool)
    ensures
        r == (s@ == skip_word()),
{
    proof {
        reveal_strlit("_");
        assert("_"@ =~= skip_word());
    }
    word_is(s, "_")
}

fn parse_one(tokens: &[Token]) -> (r: Result<Term, TermError>)
    requires
        tokens@.len() == 1,
    ensures
        match r {
            Ok(t) => spells(t, tokens@),
            Err(_) => forall|t: Term| !spells(t, tokens@),
        },
{
    match &tokens[0] {
        Token::Ident(ty) => Ok(Term::ComponentVar(ty.clone(), VarKind::Var(this_string()))),
        _ => Err(TermError {}),
    }
}

fn parse_two(tokens: &[Token]) -> (r: Result<Term, TermError>)
    requires
        tokens@.len() == 2,
    ensures
        match r {
            Ok(t) => spells(t, tokens@),
            Err(_) => forall|t: Term| !spells(t, tokens@),
        },
{
    match (&tokens[0], &tokens[1]) {
        (Token::Ident(first), Token::Ident(ty)) => {
            if is_mut_word(first) {
                Ok(Term::MutComponentVar(ty.clone(), VarKind::Var(this_string())))
            } else if is_skip_word(first) {
                Ok(Term::NoOutComponentVar(ty.clone(), VarKind::Var(this_string())))
            } else {
                Err(TermError {})
            }
        },
        (Token::Ident(ty), Token::Group(g)) => {
            match group_var(g) {
                Some(vk) => Ok(Term::ComponentVar(ty.clone(), vk)),
                None => match relation_group(g) {
                    Some((a, b)) => Ok(Term::Relation(ty.clone(), a, b)),
                    None => Err(TermError {}),
                },
            }
        },
        (Token::Punct(c), Token::Ident(id)) => {
            if *c == '&' {
                Ok(Term::OutVar(id.clone()))
            } else if *c == '!' {
                Ok(Term::Uncomponent(id.clone(), this_string()))
            } else {
                Err(TermError {})
            }
        },
        (Token::Ident(ty), Token::Punct(q)) => {
            if *q == '?' {
                Ok(Term::OptionalComponent(ty.clone(), this_string()))
            } else {
                Err(TermError {})
            }
        },
        _ => Err(TermError {}),
    }
}

/// The group of `word T(..)`: exactly `v`, or starting with `*v`.
fn prefixed_var(g: &Vec<Token>) -> (r: Option<VarKind>)
    ensures
        match r {
            Some(vk) => prefixed_group(vk, g@),
            None => forall|vk: VarKind| !prefixed_group(vk, g@),
        },
{
    if g.len() == 0 {
        return None;
    }
    match &g[0] {
        Token::Ident(v) => {
            if g.len() == 1 {
                Some(VarKind::Var(v.clone()))
            } else {
                None
            }
        },
        Token::Punct(c) => {
            if *c == '*' && g.len() >= 2 {
                match &g[1] {
                    Token::Ident(v) => Some(VarKind::InVar(v.clone())),
                    _ => None,
                }
            } else {
                None
            }
        },
        _ => None,
    }
}

/// The identifier of a group that holds exactly one.
fn single_ident(g: &Vec<Token>) -> (r: Option<String>)
    ensures
        match r {
            Some(v) => g@.len() == 1 && ident_is(g@[0], v@),
            None => !(g@.len() == 1 && g@[0] is Ident),
        },
{
    if g.len() == 1 {
        match &g[0] {
            Token::Ident(v) => Some(v.clone()),
            _ => None,
        }
    } else {
        None
    }
}

fn parse_three(tokens: &[Token]) -> (r: Result<Term, TermError>)
    requires
        tokens@.len() == 3,
    ensures
        match r {
            Ok(t) => spells(t, tokens@),
            Err(_) => forall|t: Term| !spells(t, tokens@),
        },
{
    match (&tokens[0], &tokens[1], &tokens[2]) {
        (Token::Ident(word), Token::Ident(ty), Token::Group(g)) => {
            match prefixed_var(g) {
                Some(vk) => {
                    if is_mut_word(word) {
                        Ok(Term::MutComponentVar(ty.clone(), vk))
                    } else if is_skip_word(word) {
                        Ok(Term::NoOutComponentVar(ty.clone(), vk))
                    } else {
                        Err(TermError {})
                    }
                },
                None => Err(TermError {}),
            }
        },
        (Token::Ident(word), Token::Ident(ty), Token::Punct(q)) => {
            if is_mut_word(word) && *q == '?' {
                Ok(Term::OptionalMutComponent(ty.clone(), this_string()))
            } else {
                Err(TermError {})
            }
        },
        (Token::Punct(bang), Token::Ident(ty), Token::Group(g)) => {
            if *bang != '!' {
                Err(TermError {})
            } else {
                match single_ident(g) {
                    Some(v) => Ok(Term::Uncomponent(ty.clone(), v)),
                    None => match unrelation_group(g) {
                        Some((a, b)) => Ok(Term::Unrelation(ty.clone(), a, b)),
                        None => Err(TermError {}),
                    },
                }
            }
        },
        (Token::Ident(ty), Token::Group(g), Token::Punct(q)) => {
            if *q == '?' {
                match single_ident(g) {
                    Some(v) => Ok(Term::OptionalComponent(ty.clone(), v)),
                    None => Err(TermError {}),
                }
            } else {
                Err(TermError {})
            }
        },
        _ => Err(TermError {}),
    }
}

fn parse_four(tokens: &[Token]) -> (r: Result<Term, TermError>)
    requires
        tokens@.len() == 4,
    ensures
        match r {
            Ok(t) => spells(t, tokens@),
            Err(_) => forall|t: Term| !spells(t, tokens@),
        },
{
    match (&tokens[0], &tokens[1], &tokens[2], &tokens[3]) {
        // a != b
        (Token::Ident(a), Token::Punct(bang), Token::Punct(equal), Token::Ident(b)) => {
            if *bang == '!' && *equal == '=' {
                let t = Term::ConstraintUnequal(VarKind::Var(a.clone()), VarKind::Var(b.clone()));
                proof {
                    assert(tokens@.subrange(0, 1)[0] == tokens@[0]);
                    assert(tokens@.subrange(3, 4)[0] == tokens@[3]);
                }
                Ok(t)
            } else {
                proof {
                    assert forall|t: Term| !spells(t, tokens@) by {
                        if let Term::ConstraintUnequal(x, y) = t {
                            if var_spelled(x, tokens@.subrange(0, var_len(x))) {
                                assert(tokens@.subrange(0, var_len(x))[0] == tokens@[0]);
                            }
                        }
                    }
                }
                Err(TermError {})
            }
        },
        // mut Comp(var)?
        (Token::Ident(m), Token::Ident(ty), Token::Group(g), Token::Punct(q)) => {
            if is_mut_word(m) && *q == '?' {
                match single_ident(g) {
                    Some(v) => Ok(Term::OptionalMutComponent(ty.clone(), v)),
                    None => Err(TermError {}),
                }
            } else {
                Err(TermError {})
            }
        },
        _ => {
            proof {
                assert forall|t: Term| !spells(t, tokens@) by {
                    if let Term::ConstraintUnequal(x, y) = t {
                        if var_spelled(x, tokens@.subrange(0, var_len(x))) {
                            assert(tokens@.subrange(0, var_len(x))[0] == tokens@[0]);
                        }
                        let s2 = tokens@.subrange(var_len(x) + 2, 4);
                        if var_len(x) == 1 && var_spelled(y, s2) {
                            assert(s2[0] == tokens@[3]);
                        }
                    }
                }
            }
            Err(TermError {})
        },
    }
}

fn parse_five(tokens: &[Token]) -> (r: Result<Term, TermError>)
    requires
        tokens@.len() == 5,
    ensures
        match r {
            Ok(t) => spells(t, tokens@),
            Err(_) => forall|t: Term| !spells(t, tokens@),
        },
{
    let ghost s = tokens@;
    match (&tokens[0], &tokens[1], &tokens[2], &tokens[3], &tokens[4]) {
        // a != *b
        (Token::Ident(a), Token::Punct(bang), Token::Punct(equal), Token::Punct(star), Token::Ident(b)) => {
            if *bang == '!' && *equal == '=' && *star == '*' {
                let t = Term::ConstraintUnequal(VarKind::Var(a.clone()), VarKind::InVar(b.clone()));
                proof {
                    assert(s.subrange(0, 1)[0] == s[0]);
                    assert(s.subrange(3, 5)[0] == s[3]);
                    assert(s.subrange(3, 5)[1] == s[4]);
                }
                Ok(t)
            } else {
                proof {
                    lemma_unequal_five(s);
                }
                Err(TermError {})
            }
        },
        // *a != b
        (Token::Punct(star), Token::Ident(a), Token::Punct(bang), Token::Punct(equal), Token::Ident(b)) => {
            if *bang == '!' && *equal == '=' && *star == '*' {
                let t = Term::ConstraintUnequal(VarKind::InVar(a.clone()), VarKind::Var(b.clone()));
                proof {
                    assert(s.subrange(0, 2)[0] == s[0]);
                    assert(s.subrange(0, 2)[1] == s[1]);
                    assert(s.subrange(4, 5)[0] == s[4]);
                }
                Ok(t)
            } else {
                proof {
                    lemma_unequal_five(s);
                }
                Err(TermError {})
            }
        },
        _ => {
            proof {
                lemma_unequal_five(s);
            }
            Err(TermError {})
        },
    }
}

/// Of five tokens only `a != *b` and `*a != b` spell terms.
proof fn lemma_unequal_five(s: Seq<Token>)
    requires
        s.len() == 5,
    ensures
        (exists|t: Term| spells(t, s)) ==> {
            ||| s[0] is Ident && punct_is(s[1], '!') && punct_is(s[2], '=') && punct_is(s[3], '*')
                && s[4] is Ident
            ||| punct_is(s[0], '*') && s[1] is Ident && punct_is(s[2], '!') && punct_is(s[3], '=')
                && s[4] is Ident
        },
{
    if exists|t: Term| spells(t, s) {
        let t = choose|t: Term| spells(t, s);
        if let Term::ConstraintUnequal(x, y) = t {
            let s1 = s.subrange(0, var_len(x));
            let s2 = s.subrange(var_len(x) + 2, 5);
            assert(s1[0] == s[0]);
            assert(s2[0] == s[var_len(x) + 2]);
            if var_len(x) == 2 {
                assert(s1[1] == s[1]);
            } else {
                assert(s2[1] == s[4]);
            }
        }
    }
}

fn parse_six(tokens: &[Token]) -> (r: Result<Term, TermError>)
    requires
        tokens@.len() == 6,
    ensures
        match r {
            Ok(t) => spells(t, tokens@),
            Err(_) => forall|t: Term| !spells(t, tokens@),
        },
{
    let ghost s = tokens@;
    proof {
        assert forall|t: Term| spells(t, s) implies {
            &&& punct_is(s[0], '*') && s[1] is Ident && punct_is(s[2], '!')
            &&& punct_is(s[3], '=') && punct_is(s[4], '*') && s[5] is Ident
        } by {
            if let Term::ConstraintUnequal(x, y) = t {
                let s1 = s.subrange(0, 2);
                let s2 = s.subrange(4, 6);
                assert(s1[0] == s[0] && s1[1] == s[1]);
                assert(s2[0] == s[4] && s2[1] == s[5]);
            }
        }
    }
    match (&tokens[0], &tokens[1], &tokens[2], &tokens[3], &tokens[4], &tokens[5]) {
        // *a != *b
        (
            Token::Punct(star),
            Token::Ident(a),
            Token::Punct(bang),
            Token::Punct(equal),
            Token::Punct(star2),
            Token::Ident(b),
        ) => {
            if *bang == '!' && *equal == '=' && *star == '*' && *star2 == '*' {
                let t = Term::ConstraintUnequal(VarKind::InVar(a.clone()), VarKind::InVar(b.clone()));
                proof {
                    assert(s.subrange(0, 2)[0] == s[0]);
                    assert(s.subrange(0, 2)[1] == s[1]);
                    assert(s.subrange(4, 6)[0] == s[4]);
                    assert(s.subrange(4, 6)[1] == s[5]);
                }
                Ok(t)
            } else {
                Err(TermError {})
            }
        },
        _ => Err(TermError {}),
    }
}

/// Tells which term the tokens of one query term spell.
pub fn parse_term(tokens: &[Token]) -> (r: Result<Term, TermError>)
    requires
        !term_panics(tokens@),
    ensures
        match r {
            Ok(t) => spells(t, tokens@),
            Err(_) => forall|t: Term| !spells(t, tokens@),
        },
{
    let n = tokens.len();
    if n == 1 {
        parse_one(tokens)
    } else if n == 2 {
        parse_two(tokens)
    } else if n == 3 {
        parse_three(tokens)
    } else if n == 4 {
        parse_four(tokens)
    } else if n == 5 {
        parse_five(tokens)
    } else if n == 6 {
        parse_six(tokens)
    } else {
        Err(TermError {})
    }
}

} // verus!
