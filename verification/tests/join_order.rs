use froql::generator::{compute_var_infos, RelationHelperInfo, UnrelationHelperInfo, VarInfo};
use froql::join_order::{
    compute_join_order, InitInvars, JoinKind, NewJoin, RelationConstraint, UnrelationConstraint,
};

fn s(x: &str) -> String {
    x.to_string()
}

fn comps(v: &[(&str, isize)]) -> Vec<(String, isize)> {
    v.iter().map(|(t, x)| (s(t), *x)).collect()
}

fn rels(v: &[(&str, isize, isize)]) -> Vec<(String, isize, isize)> {
    v.iter().map(|(t, a, b)| (s(t), *a, *b)).collect()
}

#[test]
fn test_join_order_single_var() {
    let components = comps(&[("Unit", 0), ("Health", 0)]);
    let relations = vec![];
    let vars = vec![0];
    let mut infos = compute_var_infos(&vars, &components, &relations, &[]);

    let join_order = compute_join_order(&relations, &mut infos, &[], &[], &[]);
    assert_eq!(join_order, vec![JoinKind::InitVar(0)]);

    assert_eq!(
        infos,
        vec![VarInfo {
            index: 0,
            init_rank: Some(0),
            related_with: vec![],
            component_range: 0..2,
            components: vec![(s("Unit"), 0), (s("Health"), 1)],
            opt_components: vec![],
            relation_helpers: vec![],
            unrelation_helpers: vec![],
            join_helper_index: None,
        }]
    );
}

#[test]
fn test_join_order_unrelation_hop() {
    // query!(world, Circle, !Inside(this, rect), Inside(*e_circle, rect))
    let components = comps(&[("Circle", 0)]);
    let relations = rels(&[("Inside", 2, 1)]);
    let unrelations = vec![(s("Inside"), 0, 1, 0)];
    let vars = vec![0, 1, 2];
    let prefills = vec![(2, s("e_circle"))];
    let unequals = vec![];

    let mut infos = compute_var_infos(&vars, &components, &relations, &[]);

    let join_order = compute_join_order(&relations, &mut infos, &prefills, &unequals, &unrelations);
    assert_eq!(
        join_order,
        vec![
            JoinKind::InitInvars(InitInvars {
                invar_unequals: vec![],
                invar_rel_constraints: vec![],
                invar_unrel_constraints: vec![],
            }),
            JoinKind::InnerJoin(NewJoin {
                new: 1,
                unequal_constraints: vec![],
                rel_constraints: vec![],
                unrel_constraints: vec![],
            }),
            JoinKind::InitVar(0),
        ]
    );
}

#[test]
fn var_infos_of_a_relation() {
    // query!(world, Unit, Health, Unit(other), Attack(other, this))
    let components = comps(&[("Unit", 0), ("Health", 0), ("Unit", 1)]);
    let relations = rels(&[("Attack", 1, 0)]);
    let infos = compute_var_infos(&[0, 1], &components, &relations, &[]);
    assert_eq!(infos.len(), 2);
    assert_eq!(infos[0].component_range, 0..3);
    assert_eq!(infos[0].components, vec![(s("Unit"), 0), (s("Health"), 1)]);
    assert_eq!(infos[0].related_with, vec![((s("Attack"), 1), 2)]);
    assert_eq!(infos[1].component_range, 3..5);
    assert_eq!(infos[1].components, vec![(s("Unit"), 3)]);
    assert_eq!(infos[1].related_with, vec![((s("Attack"), 0), 4)]);
    assert_eq!(infos[1].init_rank, None);
}

#[test]
fn var_infos_count_each_type_once() {
    // a repeated component and a second relation of one type add no column
    let components = comps(&[("Unit", 0), ("Unit", 0)]);
    let relations = rels(&[("Likes", 0, 1), ("Likes", 0, 2), ("Likes", 2, 0)]);
    let opts = vec![(s("Name"), 1, 0), (s("Age"), 0, 1)];
    let infos = compute_var_infos(&[0, 1, 2], &components, &relations, &opts);
    // var 0: Unit, Likes to 1 (from), Likes from 2 (to)
    assert_eq!(infos[0].component_range, 0..3);
    assert_eq!(infos[0].related_with, vec![((s("Likes"), 1), 1), ((s("Likes"), 2), 2)]);
    assert_eq!(infos[0].opt_components, vec![(s("Age"), 1)]);
    // var 1: Likes from 0
    assert_eq!(infos[1].component_range, 3..4);
    assert_eq!(infos[1].opt_components, vec![(s("Name"), 0)]);
    // var 2: Likes to 0, Likes from 0
    assert_eq!(infos[2].component_range, 4..6);
    assert_eq!(infos[2].related_with, vec![((s("Likes"), 0), 4), ((s("Likes"), 0), 5)]);
}

#[test]
fn join_order_starts_at_most_constrained() {
    let components = comps(&[("Unit", 0), ("Health", 0), ("Unit", 1)]);
    let relations = rels(&[("Attack", 1, 0)]);
    let mut infos = compute_var_infos(&[0, 1], &components, &relations, &[]);
    let unequals = vec![(0, 1)];
    let join_order = compute_join_order(&relations, &mut infos, &[], &unequals, &[]);
    assert_eq!(
        join_order,
        vec![
            JoinKind::InitVar(0),
            JoinKind::InnerJoin(NewJoin {
                new: 1,
                unequal_constraints: vec![(0, 1)],
                rel_constraints: vec![],
                unrel_constraints: vec![],
            }),
        ]
    );
    assert_eq!(infos[0].init_rank, Some(0));
    assert_eq!(infos[1].init_rank, Some(1));
    assert_eq!(
        infos[0].relation_helpers,
        vec![RelationHelperInfo { cid_index: 2, column_index: 2, old_var: 0, new_var: 1, nr: 0 }]
    );
    assert_eq!(infos[1].join_helper_index, Some(0));
}

#[test]
fn join_order_checks_relations_between_bound_variables() {
    // query!(world, Likes(*me, a), Likes(a, *me), Knows(a, b), !Hates(b, a))
    let relations = rels(&[("Likes", 0, 1), ("Likes", 1, 0), ("Knows", 1, 2)]);
    let unrelations = vec![(s("Hates"), 2, 1, 0)];
    let prefills = vec![(0, s("me"))];
    let mut infos = compute_var_infos(&[0, 1, 2], &[], &relations, &[]);
    let join_order = compute_join_order(&relations, &mut infos, &prefills, &[], &unrelations);
    assert_eq!(
        join_order,
        vec![
            JoinKind::InitInvars(InitInvars {
                invar_unequals: vec![],
                invar_rel_constraints: vec![],
                invar_unrel_constraints: vec![],
            }),
            JoinKind::InnerJoin(NewJoin {
                new: 1,
                unequal_constraints: vec![],
                rel_constraints: vec![RelationConstraint { helper_nr: 1, checked_invar: None }],
                unrel_constraints: vec![],
            }),
            JoinKind::InnerJoin(NewJoin {
                new: 2,
                unequal_constraints: vec![],
                rel_constraints: vec![],
                unrel_constraints: vec![UnrelationConstraint { helper_nr: 0, checked_invar: None }],
            }),
        ]
    );
    assert_eq!(infos[0].init_rank, Some(0));
    assert_eq!(infos[1].init_rank, Some(1));
    assert_eq!(infos[2].init_rank, Some(2));
    // the negated relation is checked from `a`, bound before `b`
    assert_eq!(
        infos[1].unrelation_helpers,
        vec![UnrelationHelperInfo { ty: s("Hates"), flip_target: true, old_var: 1, new_var: 2, nr: 0 }]
    );
}
