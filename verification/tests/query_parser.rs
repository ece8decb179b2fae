use froql::query_parser::{parse_term, RelationVarKind, Term, TermError, Token, VarKind};
use froql::query_terms::{read_query, transform_anyvars, transform_var, Accessor, ANYVAR};

fn id(s: &str) -> Token {
    Token::Ident(s.to_string())
}

fn p(c: char) -> Token {
    Token::Punct(c)
}

fn g(v: Vec<Token>) -> Token {
    Token::Group(v)
}

fn s(x: &str) -> String {
    x.to_string()
}

fn var(x: &str) -> VarKind {
    VarKind::Var(s(x))
}

fn invar(x: &str) -> VarKind {
    VarKind::InVar(s(x))
}

fn rvar(x: &str) -> RelationVarKind {
    RelationVarKind::Var(s(x))
}

fn rinvar(x: &str) -> RelationVarKind {
    RelationVarKind::InVar(s(x))
}

#[test]
fn parse_component_terms() {
    assert_eq!(parse_term(&[id("Unit")]), Ok(Term::ComponentVar(s("Unit"), var("this"))));
    assert_eq!(
        parse_term(&[id("Unit"), g(vec![id("e")])]),
        Ok(Term::ComponentVar(s("Unit"), var("e")))
    );
    assert_eq!(
        parse_term(&[id("Unit"), g(vec![p('*'), id("e")])]),
        Ok(Term::ComponentVar(s("Unit"), invar("e")))
    );
    assert_eq!(
        parse_term(&[id("mut"), id("Health")]),
        Ok(Term::MutComponentVar(s("Health"), var("this")))
    );
    assert_eq!(
        parse_term(&[id("_"), id("Health")]),
        Ok(Term::NoOutComponentVar(s("Health"), var("this")))
    );
    assert_eq!(
        parse_term(&[id("mut"), id("Health"), g(vec![id("e")])]),
        Ok(Term::MutComponentVar(s("Health"), var("e")))
    );
    assert_eq!(
        parse_term(&[id("_"), id("Health"), g(vec![p('*'), id("e")])]),
        Ok(Term::NoOutComponentVar(s("Health"), invar("e")))
    );
    // only `mut` and `_` may come before a type
    assert_eq!(parse_term(&[id("ref"), id("Health")]), Err(TermError {}));
    assert_eq!(parse_term(&[id("ref"), id("Health"), g(vec![id("e")])]), Err(TermError {}));
    // `Unit(a b)` is no variable
    assert_eq!(parse_term(&[id("Unit"), g(vec![id("a"), id("b")])]), Err(TermError {}));
    assert_eq!(parse_term(&[id("Unit"), g(vec![p('#'), id("e")])]), Err(TermError {}));
}

#[test]
fn parse_relation_terms() {
    let rel = |inner: Vec<Token>| parse_term(&[id("Attack"), g(inner)]);
    assert_eq!(
        rel(vec![id("a"), p(','), id("b")]),
        Ok(Term::Relation(s("Attack"), rvar("a"), rvar("b")))
    );
    assert_eq!(
        rel(vec![p('*'), id("a"), p(','), id("b")]),
        Ok(Term::Relation(s("Attack"), rinvar("a"), rvar("b")))
    );
    assert_eq!(
        rel(vec![id("a"), p(','), p('*'), id("b")]),
        Ok(Term::Relation(s("Attack"), rvar("a"), rinvar("b")))
    );
    assert_eq!(
        rel(vec![p('*'), id("a"), p(','), p('*'), id("b")]),
        Ok(Term::Relation(s("Attack"), rinvar("a"), rinvar("b")))
    );
    // the form with two outside variables reads no further
    assert_eq!(
        rel(vec![p('*'), id("a"), p(','), p('*'), id("b"), id("c")]),
        Ok(Term::Relation(s("Attack"), rinvar("a"), rinvar("b")))
    );
    assert_eq!(rel(vec![id("a"), p(','), id("b"), p(','), id("c")]), Err(TermError {}));
    assert_eq!(rel(vec![id("a"), p(';'), id("b")]), Err(TermError {}));
    assert_eq!(rel(vec![id("a"), p(','), p('&'), id("b")]), Err(TermError {}));
}

#[test]
fn parse_negated_terms() {
    assert_eq!(parse_term(&[p('!'), id("Flying")]), Ok(Term::Uncomponent(s("Flying"), s("this"))));
    assert_eq!(
        parse_term(&[p('!'), id("Flying"), g(vec![id("e")])]),
        Ok(Term::Uncomponent(s("Flying"), s("e")))
    );
    let unrel = |inner: Vec<Token>| parse_term(&[p('!'), id("Likes"), g(inner)]);
    assert_eq!(
        unrel(vec![id("a"), p(','), id("b")]),
        Ok(Term::Unrelation(s("Likes"), rvar("a"), rvar("b")))
    );
    assert_eq!(
        unrel(vec![p('*'), id("a"), p(','), id("b")]),
        Ok(Term::Unrelation(s("Likes"), rinvar("a"), rvar("b")))
    );
    assert_eq!(
        unrel(vec![id("a"), p(','), p('*'), id("b")]),
        Ok(Term::Unrelation(s("Likes"), rvar("a"), rinvar("b")))
    );
    // the forms with one outside variable read no further
    assert_eq!(
        unrel(vec![id("a"), p(','), p('*'), id("b"), id("x")]),
        Ok(Term::Unrelation(s("Likes"), rvar("a"), rinvar("b")))
    );
    assert_eq!(unrel(vec![p('*'), id("a"), p(','), p('*'), id("b")]), Err(TermError {}));
    assert_eq!(unrel(vec![id("a"), p(','), id("b"), id("x")]), Err(TermError {}));
    assert_eq!(parse_term(&[p('~'), id("Flying")]), Err(TermError {}));
    assert_eq!(parse_term(&[p('~'), id("Flying"), g(vec![id("e")])]), Err(TermError {}));
}

#[test]
fn parse_outvar_and_optional_terms() {
    assert_eq!(parse_term(&[p('&'), id("e")]), Ok(Term::OutVar(s("e"))));
    assert_eq!(
        parse_term(&[id("Name"), p('?')]),
        Ok(Term::OptionalComponent(s("Name"), s("this")))
    );
    assert_eq!(
        parse_term(&[id("Name"), g(vec![id("e")]), p('?')]),
        Ok(Term::OptionalComponent(s("Name"), s("e")))
    );
    assert_eq!(
        parse_term(&[id("mut"), id("Name"), p('?')]),
        Ok(Term::OptionalMutComponent(s("Name"), s("this")))
    );
    assert_eq!(
        parse_term(&[id("mut"), id("Name"), g(vec![id("e")]), p('?')]),
        Ok(Term::OptionalMutComponent(s("Name"), s("e")))
    );
    assert_eq!(parse_term(&[id("Name"), p('!')]), Err(TermError {}));
    assert_eq!(parse_term(&[id("_"), id("Name"), p('?')]), Err(TermError {}));
    assert_eq!(parse_term(&[id("mut"), id("Name"), g(vec![id("e")]), p('!')]), Err(TermError {}));
    assert_eq!(parse_term(&[id("Name"), g(vec![p('*'), id("e")]), p('?')]), Err(TermError {}));
}

#[test]
fn parse_unequal_terms() {
    assert_eq!(
        parse_term(&[id("a"), p('!'), p('='), id("b")]),
        Ok(Term::ConstraintUnequal(var("a"), var("b")))
    );
    assert_eq!(
        parse_term(&[id("a"), p('!'), p('='), p('*'), id("b")]),
        Ok(Term::ConstraintUnequal(var("a"), invar("b")))
    );
    assert_eq!(
        parse_term(&[p('*'), id("a"), p('!'), p('='), id("b")]),
        Ok(Term::ConstraintUnequal(invar("a"), var("b")))
    );
    assert_eq!(
        parse_term(&[p('*'), id("a"), p('!'), p('='), p('*'), id("b")]),
        Ok(Term::ConstraintUnequal(invar("a"), invar("b")))
    );
    assert_eq!(parse_term(&[id("a"), p('='), p('='), id("b")]), Err(TermError {}));
    assert_eq!(parse_term(&[id("a"), p('!'), p('='), p('&'), id("b")]), Err(TermError {}));
    assert_eq!(parse_term(&[p('*'), id("a"), p('!'), p('='), p('*'), p('b')]), Err(TermError {}));
}

#[test]
fn parse_odd_lengths() {
    assert_eq!(parse_term(&[]), Err(TermError {}));
    assert_eq!(parse_term(&[p('&')]), Err(TermError {}));
    assert_eq!(parse_term(&[Token::Literal(s("5"))]), Err(TermError {}));
    let seven = vec![id("a"), id("b"), id("c"), id("d"), id("e"), id("f"), id("g")];
    assert_eq!(parse_term(&seven), Err(TermError {}));
}

#[test]
fn anyvar_transform() {
    assert_eq!(transform_var(rvar("_")), RelationVarKind::AnyVar);
    assert_eq!(transform_var(rvar("a")), rvar("a"));
    assert_eq!(transform_var(rinvar("a")), rinvar("a"));
    assert_eq!(
        transform_anyvars(Term::Relation(s("R"), rvar("_"), rvar("b"))),
        Term::Relation(s("R"), RelationVarKind::AnyVar, rvar("b"))
    );
    // a component on a variable named `_` stays as it is
    assert_eq!(
        transform_anyvars(Term::ComponentVar(s("C"), var("_"))),
        Term::ComponentVar(s("C"), var("_"))
    );
}

fn query(terms: Vec<Vec<Token>>) -> Vec<Token> {
    let mut v = vec![id("world"), p(',')];
    let n = terms.len();
    for (i, t) in terms.into_iter().enumerate() {
        v.extend(t);
        if i + 1 < n {
            v.push(p(','));
        }
    }
    v
}

#[test]
fn read_simple_query() {
    // query!(world, Unit, mut Health)
    let q = query(vec![vec![id("Unit")], vec![id("mut"), id("Health")]]);
    let (world, gen) = read_query(&q).unwrap();
    assert_eq!(world, "world");
    assert_eq!(gen.vars, vec![0]);
    assert_eq!(gen.components, vec![(s("Unit"), 0), (s("Health"), 0)]);
    assert_eq!(
        gen.accessors,
        vec![Accessor::Component(s("Unit"), 0), Accessor::ComponentMut(s("Health"), 0)]
    );
    assert!(gen.relations.is_empty());
    assert!(gen.prefills.is_empty());
}

#[test]
fn read_relation_query() {
    // query!(world, &this, _ Unit, Attack(this, other), Unit(other), this != other, !Rel(this, _))
    let q = query(vec![
        vec![p('&'), id("this")],
        vec![id("_"), id("Unit")],
        vec![id("Attack"), g(vec![id("this"), p(','), id("other")])],
        vec![id("Unit"), g(vec![id("other")])],
        vec![id("this"), p('!'), p('='), id("other")],
        vec![p('!'), id("Rel"), g(vec![id("this"), p(','), id("_")])],
    ]);
    let (_, gen) = read_query(&q).unwrap();
    assert_eq!(gen.vars, vec![0, 1]);
    assert_eq!(gen.accessors, vec![Accessor::OutVar(0), Accessor::Component(s("Unit"), 1)]);
    assert_eq!(gen.components, vec![(s("Unit"), 0), (s("Unit"), 1)]);
    assert_eq!(gen.relations, vec![(s("Attack"), 0, 1)]);
    assert_eq!(gen.unequals, vec![(0, 1)]);
    assert_eq!(gen.unrelations, vec![(s("Rel"), 0, ANYVAR, 0)]);
}

#[test]
fn read_invar_query() {
    // query!(world, Unit(*me), Attack(*me, enemy), Name(enemy)?, mut Health(enemy)?)
    let q = query(vec![
        vec![id("Unit"), g(vec![p('*'), id("me")])],
        vec![id("Attack"), g(vec![p('*'), id("me"), p(','), id("enemy")])],
        vec![id("Name"), g(vec![id("enemy")]), p('?')],
        vec![id("mut"), id("Health"), g(vec![id("enemy")]), p('?')],
    ]);
    let (_, gen) = read_query(&q).unwrap();
    assert_eq!(gen.vars, vec![0, 1]);
    assert_eq!(gen.prefills, vec![(0, s("me"))]);
    assert_eq!(gen.relations, vec![(s("Attack"), 0, 1)]);
    assert_eq!(gen.opt_components, vec![(s("Name"), 1, 0), (s("Health"), 1, 1)]);
    assert_eq!(
        gen.accessors,
        vec![
            Accessor::Component(s("Unit"), 0),
            Accessor::OptComponent(s("Name"), 1, 0),
            Accessor::OptMutComponent(s("Health"), 1, 1),
        ]
    );
}

#[test]
fn read_query_errors() {
    // the second term spells nothing
    let q = query(vec![vec![id("Unit")], vec![id("ref"), id("Health")]]);
    assert_eq!(read_query(&q), Err(TermError {}));
    // a doubled comma starts the next term with a comma
    let q = vec![id("world"), p(','), id("Unit"), p(','), p(','), id("Health")];
    assert_eq!(read_query(&q), Err(TermError {}));
    // a trailing comma is fine
    let q = vec![id("world"), p(','), id("Unit"), p(',')];
    let (_, gen) = read_query(&q).unwrap();
    assert_eq!(gen.components, vec![(s("Unit"), 0)]);
}
