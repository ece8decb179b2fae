use froql::generator::{
    compute_var_infos, generate_archetype_sets, generate_fsm_context, RelationHelperInfo, VarInfo,
};
use froql::generator_nodes::{
    insert_checks, insert_optional_comps, relation_helpers_init_and_set_col,
    relation_helpers_set_rows, YieldResult,
};
use froql::join_order::{
    compute_join_order, JoinKind, NewJoin, RelationConstraint, UnrelationConstraint,
};
use froql::query_terms::{Accessor, ANYVAR};
use froql::text::{push_decimal, push_isize};

fn s(x: &str) -> String {
    x.to_string()
}

fn comps(v: &[(&str, isize)]) -> Vec<(String, isize)> {
    v.iter().map(|(t, x)| (s(t), *x)).collect()
}

fn rels(v: &[(&str, isize, isize)]) -> Vec<(String, isize, isize)> {
    v.iter().map(|(t, a, b)| (s(t), *a, *b)).collect()
}

#[test]
fn generator_test_generate_archetype_id_sets_relation() {
    let components = comps(&[("Unit", 0), ("Health", 0), ("Unit", 1)]);
    let relations = rels(&[("Attack", 1, 0)]);
    let uncomponents = comps(&[("Bird", 0), ("Fish", 0), ("Bird", 1)]);
    let vars = vec![0, 1];
    let mut result = String::new();
    let prefills = vec![];
    let mut infos = compute_var_infos(&vars, &components, &relations, &[]);

    generate_archetype_sets(
        &mut result,
        &vars,
        &prefills,
        &components,
        &relations,
        &uncomponents,
        &[],
    );

    assert_eq!(
        result.trim_end(),
        "let components_0 = [
    world.get_component_id::<Unit>(),
    world.get_component_id::<Health>(),
    bk.get_component_id_unchecked(::std::any::TypeId::of::<::froql::relation::Relation<Attack>>()).flip_target(),
];

let components_1 = [
    world.get_component_id::<Unit>(),
    bk.get_component_id_unchecked(::std::any::TypeId::of::<::froql::relation::Relation<Attack>>()),
];

let uncomponents_0 = [
    world.get_component_id::<Bird>(),
    world.get_component_id::<Fish>(),
];

let uncomponents_1 = [
    world.get_component_id::<Bird>(),
];

let archetype_id_sets = [
    bk.matching_archetypes(&components_0, &uncomponents_0),
    bk.matching_archetypes(&components_1, &uncomponents_1),
];"
    );

    assert_eq!(infos[0].index, 0);
    assert_eq!(infos[0].init_rank, None);
    assert_eq!(infos[0].related_with, vec![((s("Attack"), 1), 2)]);
    assert_eq!(infos[0].component_range, 0..3);
    assert_eq!(infos[0].components, vec![(s("Unit"), 0), (s("Health"), 1)]);
    assert_eq!(infos[1].index, 1);
    assert_eq!(infos[1].related_with, vec![((s("Attack"), 0), 4)]);
    assert_eq!(infos[1].component_range, 3..5);
    assert_eq!(infos[1].components, vec![(s("Unit"), 3)]);

    let join_order = compute_join_order(&relations, &mut infos, &prefills, &[], &[]);
    assert_eq!(
        join_order,
        vec![
            JoinKind::InitVar(0),
            JoinKind::InnerJoin(NewJoin {
                new: 1,
                unequal_constraints: vec![],
                rel_constraints: vec![],
                unrel_constraints: vec![],
            }),
        ]
    );

    let mut infos = compute_var_infos(&vars, &components, &relations, &[]);
    let unequals = vec![(0, 1)];
    let join_order = compute_join_order(&relations, &mut infos, &prefills, &unequals, &[]);
    assert_eq!(
        join_order,
        vec![
            JoinKind::InitVar(0),
            JoinKind::InnerJoin(NewJoin {
                new: 1,
                unequal_constraints: vec![(0, 1)],
                rel_constraints: vec![],
                unrel_constraints: vec![],
            }),
        ]
    );
}

#[test]
fn test_generate_archetype_id_sets_trivial() {
    let components = comps(&[("Pos", 0), ("Speed", 0)]);
    let uncomponents = vec![];
    let relations = vec![];
    let vars = vec![0];
    let prefills = vec![];
    let mut result = String::new();
    generate_archetype_sets(&mut result, &vars, &prefills, &components, &relations, &uncomponents, &[]);
    assert_eq!(
        result.trim_end(),
        "let components_0 = [
    world.get_component_id::<Pos>(),
    world.get_component_id::<Speed>(),
];

let archetype_id_sets = [
    bk.matching_archetypes(&components_0, &[]),
];"
    );
}

#[test]
fn archetype_sets_with_prefills_and_anyvars() {
    // query!(world, Unit(*me), !Flying, !Likes(this, _), !Hates(_, this), Attack(*me, this))
    let components = comps(&[("Unit", 1)]);
    let relations = rels(&[("Attack", 1, 0)]);
    let uncomponents = comps(&[("Flying", 0)]);
    let unrelations = vec![(s("Likes"), 0, ANYVAR, 0), (s("Hates"), ANYVAR, 0, 1)];
    let prefills = vec![(1, s("me"))];
    let mut result = String::new();
    generate_archetype_sets(
        &mut result,
        &[0, 1],
        &prefills,
        &components,
        &relations,
        &uncomponents,
        &unrelations,
    );
    assert_eq!(
        result,
        "let components_0 = [
    bk.get_component_id_unchecked(::std::any::TypeId::of::<::froql::relation::Relation<Attack>>()).flip_target(),
];

let components_1 = [
    world.get_component_id::<Unit>(),
    bk.get_component_id_unchecked(::std::any::TypeId::of::<::froql::relation::Relation<Attack>>()),
];

let uncomponents_0 = [
    world.get_component_id::<Flying>(),
    bk.get_component_id_unchecked(::std::any::TypeId::of::<::froql::relation::Relation<Likes>>()),
    bk.get_component_id_unchecked(::std::any::TypeId::of::<::froql::relation::Relation<Hates>>()).flip_target(),
];

let archetype_id_sets = [
    bk.matching_archetypes(&components_0, &uncomponents_0),
    Vec::<::froql::archetype::ArchetypeId>::new(),
];

"
    );
}

#[test]
fn generator_test_generate_result_set() {
    let components = comps(&[("Unit", 0), ("Health", 0), ("Unit", 1)]);
    let relations = rels(&[("Attack", 1, 0)]);
    let vars = vec![0, 1];
    let mut result = String::new();
    generate_fsm_context(&mut result, &vars, &components, &relations);
    assert_eq!(
        result.trim(),
        "// result set
const VAR_COUNT: usize = 2;
let mut a_refs = [&bk.archetypes[0]; VAR_COUNT];
let mut a_rows = [::froql::archetype::ArchetypeRow(u32::MAX); VAR_COUNT];

// general context for statemachine
let mut current_step = 0;
let mut a_max_rows = [0; VAR_COUNT];
let mut a_next_indexes = [usize::MAX; VAR_COUNT];
let mut col_indexes = [usize::MAX; 5];"
    );
}

#[test]
fn numbers_as_rust_prints_them() {
    let mut t = String::new();
    push_decimal(&mut t, 0);
    t.push(' ');
    push_decimal(&mut t, 1207);
    t.push(' ');
    push_isize(&mut t, -45);
    t.push(' ');
    push_isize(&mut t, isize::MIN);
    t.push(' ');
    push_decimal(&mut t, usize::MAX);
    assert_eq!(t, format!("0 1207 -45 {} {}", isize::MIN, usize::MAX));
}

#[test]
fn checks_are_joined_by_or() {
    let mut append = String::new();
    insert_checks(
        &mut append,
        &[(0, 2), (2, 1)],
        &[RelationConstraint { helper_nr: 3, checked_invar: Some(1) }],
        &[UnrelationConstraint { helper_nr: 0, checked_invar: None }],
    );
    assert_eq!(
        append,
        "
            if
                (::std::ptr::eq(a_refs[0], a_refs[2])
                 && a_rows[0] == a_rows[2])
            ||
                (::std::ptr::eq(a_refs[2], a_refs[1])
                 && a_rows[2] == a_rows[1])
            ||
                !rel_helper_3.has_relation(invar_1.id)
                
            ||
                !unrel_helper_0.satisfied(id)
                "
    );
    let mut single = String::new();
    insert_checks(&mut single, &[], &[RelationConstraint { helper_nr: 0, checked_invar: None }], &[]);
    assert_eq!(
        single,
        "
            if
                !rel_helper_0.has_relation(id)
                "
    );
}

#[test]
fn optional_components_are_declared_and_looked_up() {
    let mut prepend = String::new();
    let mut append = String::new();
    insert_optional_comps(&mut prepend, &mut append, &[(s("OptA"), 0), (s("OptB"), 1)]);
    assert_eq!(
        prepend,
        "
let opt_cid_0 = world.get_component_id::<OptA>();
let mut opt_col_0 = None;
let opt_cid_1 = world.get_component_id::<OptB>();
let mut opt_col_1 = None;"
    );
    assert_eq!(
        append,
        "
            opt_col_0 = a_ref.find_column_opt(opt_cid_0);

            opt_col_1 = a_ref.find_column_opt(opt_cid_1);
"
    );
}

#[test]
fn relation_helpers_are_written() {
    let helpers = vec![RelationHelperInfo { cid_index: 2, column_index: 5, old_var: 0, new_var: 1, nr: 4 }];
    let mut prepend = String::new();
    let mut append = String::new();
    relation_helpers_init_and_set_col(&mut prepend, &mut append, &helpers);
    assert_eq!(
        prepend,
        "
let mut rel_helper_4 = ::froql::query_helper::RelationHelper::new
    (components_0[2]);
"
    );
    assert_eq!(
        append,
        "
    rel_helper_4.set_col(&a_ref.columns[col_indexes[5]]);
"
    );
    let mut rows = String::new();
    relation_helpers_set_rows(&mut rows, &helpers);
    assert_eq!(
        rows,
        "
        rel_helper_4.set_row(bk, a_rows[0].0);
"
    );
}

fn info_with(components: Vec<(String, usize)>) -> VarInfo {
    VarInfo {
        index: 0,
        init_rank: None,
        related_with: vec![],
        component_range: 0..0,
        components,
        opt_components: vec![],
        relation_helpers: vec![],
        unrelation_helpers: vec![],
        join_helper_index: None,
    }
}

#[test]
fn yield_result_relation_join_unequality() {
    let accessors = [Accessor::Component("Health".to_string(), 0)];
    let infos = [info_with(vec![("Health".to_string(), 0)])];
    let generator = YieldResult { accessors: &accessors, infos: &infos };
    let mut prepend = String::new();
    let mut append = String::new();
    let next = generator.generate(3, &mut prepend, &mut append);
    assert_eq!(next, usize::MAX);
    assert_eq!(prepend, "");
    assert_eq!(
        append,
        "
// yield row
3 => {
    current_step -= 1;
    return Some(unsafe {
        (
            ::froql::query_helper::coerce_cast::<Health>(
                world,
                a_refs[0].columns[col_indexes[0]].get(a_rows[0].0)
            ).borrow(),
        )
    });
}
"
    );
}

#[test]
fn yield_result_writes_every_kind_of_accessor() {
    let accessors = [
        Accessor::ComponentMut("Pos".to_string(), 1),
        Accessor::OutVar(0),
        Accessor::OptComponent("Name".to_string(), 1, 0),
        Accessor::OptMutComponent("Age".to_string(), 0, 1),
        Accessor::Singleton("Time".to_string()),
        Accessor::SingletonMut("Log".to_string()),
    ];
    let infos = [
        info_with(vec![]),
        info_with(vec![("Pos".to_string(), 2), ("Vel".to_string(), 3), ("Pos".to_string(), 7)]),
    ];
    let generator = YieldResult { accessors: &accessors, infos: &infos };
    let mut prepend = String::from("keep");
    let mut append = String::from("x");
    let next = generator.generate(12, &mut prepend, &mut append);
    assert_eq!(next, usize::MAX);
    assert_eq!(prepend, "keep");
    assert_eq!(
        append,
        "x
// yield row
12 => {
    current_step -= 1;
    return Some(unsafe {
        (
            ::froql::query_helper::coerce_cast::<Pos>(
                world,
                a_refs[1].columns[col_indexes[7]].get(a_rows[1].0)
            ).borrow_mut(),
            ::froql::entity_view_deferred::EntityViewDeferred::from_id_unchecked(world,
                                a_refs[0].entities[a_rows[0].0 as usize]),
            (opt_col_0.map(|col| {
                ::froql::query_helper::coerce_cast::<Name>(
                    world,
                    col.get(a_rows[1].0)
                ).borrow()
            })),
            (opt_col_1.map(|col| {
                ::froql::query_helper::coerce_cast::<Age>(
                    world,
                    col.get(a_rows[0].0)
                ).borrow_mut()
            })),
            world.singleton::<Time>(),
            world.singleton_mut::<Log>(),
        )
    });
}
"
    );
}
