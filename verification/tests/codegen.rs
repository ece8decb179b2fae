use froql::invar_captures::generate_invar_captures;
use froql::query_terms::{Accessor, Generator};

fn s(x: &str) -> String {
    x.to_string()
}

#[test]
fn test_generate_invar_captures() {
    let mut result = String::new();
    let prefills = vec![(2, s("somebody")), (1, s("player"))];
    generate_invar_captures(&mut result, &prefills);
    assert_eq!(
        result,
        "let invar_1: ::froql::entity_store::Entity = (&player).into();
let invar_2: ::froql::entity_store::Entity = (&somebody).into();
"
    );

    let mut result = String::new();
    let prefills = vec![(1, s("player"))];
    generate_invar_captures(&mut result, &prefills);
    assert_eq!(result, "let invar_1: ::froql::entity_store::Entity = (&player).into();\n");

    // empty
    let mut result = String::new();
    let prefills: Vec<(isize, String)> = vec![];
    generate_invar_captures(&mut result, &prefills);
    assert_eq!(result, "");
}

#[test]
fn captures_do_not_depend_on_order() {
    let mut a = String::new();
    generate_invar_captures(&mut a, &[(3, s("c")), (0, s("a")), (7, s("b"))]);
    let mut b = String::new();
    generate_invar_captures(&mut b, &[(7, s("b")), (3, s("c")), (0, s("a"))]);
    assert_eq!(a, b);
    assert_eq!(
        a,
        "let invar_0: ::froql::entity_store::Entity = (&a).into();\nlet invar_3: ::froql::entity_store::Entity = (&c).into();\nlet invar_7: ::froql::entity_store::Entity = (&b).into();\n"
    );
}

fn attack_query(accessors: Vec<Accessor>) -> Generator {
    Generator {
        vars: vec![0, 1],
        components: vec![(s("Unit"), 0), (s("Health"), 0), (s("Unit"), 1)],
        relations: vec![(s("Attack"), 1, 0)],
        accessors,
        ..Default::default()
    }
}

#[test]
fn test_relation_outvar() {
    let result = attack_query(vec![
        Accessor::OutVar(0),
        Accessor::Component(s("Unit"), 0),
        Accessor::Component(s("Unit"), 1),
        Accessor::ComponentMut(s("Health"), 0),
    ])
    .generate("world");
    assert_eq!(result, RELATION_OUTVAR);
}

#[test]
fn test_invar() {
    let mut g = attack_query(vec![
        Accessor::Component(s("Unit"), 0),
        Accessor::Component(s("Unit"), 1),
        Accessor::ComponentMut(s("Health"), 0),
    ]);
    g.prefills = vec![(1, s("player"))];
    g.opt_components = vec![(s("Reputation"), 1, 0)];
    let result = g.generate("world");
    assert!(result.starts_with(
        "{\nlet invar_1: ::froql::entity_store::Entity = (&player).into();\n\nlet world: &World = &world;\n"
    ));
    assert!(result.contains("\nlet opt_cid_0 = world.get_component_id::<Reputation>();\nlet mut opt_col_0 = None;"));
    assert!(result.contains("\n0 => {\n\n{\n    let (aid, arow) = bk.entities.get_archetype(invar_1);\n    let a_ref = &mut a_refs[1];"));
    assert!(result.contains("            opt_col_0 = a_ref.find_column_opt(opt_cid_0);\n"));
    assert!(result.contains("\n1 => {\n    return None;\n}\n"));
    assert!(result.ends_with("\n_ => unreachable!(),\n}}})\n\n}"));
}

#[test]
fn test_unequals() {
    let mut g = attack_query(vec![
        Accessor::OutVar(0),
        Accessor::Component(s("Unit"), 0),
        Accessor::Component(s("Unit"), 1),
        Accessor::ComponentMut(s("Health"), 0),
    ]);
    g.unequals = vec![(0, 1)];
    let result = g.generate("world");
    assert!(result.contains("// follow relation\n2 => {"));
    assert!(result.contains(
        "            if\n                (::std::ptr::eq(a_refs[0], a_refs[1])\n                 && a_rows[0] == a_rows[1])\n            {\n            } else {"
    ));
    assert!(result.contains("// yield row\n3 => {"));
    assert!(result.ends_with("\n_ => unreachable!(),\n}}})\n\n}"));
}

#[test]
fn test_optional_component() {
    let mut g = attack_query(vec![
        Accessor::OptComponent(s("Reputation"), 0, 0),
        Accessor::Component(s("Unit"), 0),
        Accessor::Component(s("Unit"), 1),
        Accessor::ComponentMut(s("Health"), 0),
    ]);
    g.unequals = vec![(0, 1)];
    g.opt_components = vec![(s("Reputation"), 0, 0)];
    let result = g.generate("world");
    assert!(result.contains("\nlet opt_cid_0 = world.get_component_id::<Reputation>();\nlet mut opt_col_0 = None;"));
    assert!(result.contains("    a_max_rows[CURRENT_VAR] = a_ref.entities.len() as u32;\n            opt_col_0 = a_ref.find_column_opt(opt_cid_0);\n"));
    assert!(result.contains(
        "            (opt_col_0.map(|col| {\n                ::froql::query_helper::coerce_cast::<Reputation>(\n                    world,\n                    col.get(a_rows[0].0)\n                ).borrow()\n            })),"
    ));
}

const RELATION_OUTVAR: &str = r#"{

let world: &World = &world;
let bk = &world.bookkeeping;
let components_0 = [
    world.get_component_id::<Unit>(),
    world.get_component_id::<Health>(),
    bk.get_component_id_unchecked(::std::any::TypeId::of::<::froql::relation::Relation<Attack>>()).flip_target(),
];

let components_1 = [
    world.get_component_id::<Unit>(),
    bk.get_component_id_unchecked(::std::any::TypeId::of::<::froql::relation::Relation<Attack>>()),
];

let archetype_id_sets = [
    bk.matching_archetypes(&components_0, &[]),
    bk.matching_archetypes(&components_1, &[]),
];


// result set
const VAR_COUNT: usize = 2;
let mut a_refs = [&bk.archetypes[0]; VAR_COUNT];
let mut a_rows = [::froql::archetype::ArchetypeRow(u32::MAX); VAR_COUNT];

// general context for statemachine
let mut current_step = 0;
let mut a_max_rows = [0; VAR_COUNT];
let mut a_next_indexes = [usize::MAX; VAR_COUNT];
let mut col_indexes = [usize::MAX; 5];

let mut rel_helper_0 = ::froql::query_helper::RelationHelper::new
    (components_0[2]);


::std::iter::from_fn(move || { loop { match current_step {
0 => {
    const CURRENT_VAR: usize = 0;
    const CURRENT_VAR_COMPONENTS: ::std::ops::Range<usize> = 0..3;
    let next_index = &mut a_next_indexes[CURRENT_VAR];
    let archetype_ids = &archetype_id_sets[CURRENT_VAR];
    *next_index = next_index.wrapping_add(1);
    if *next_index >= archetype_ids.len() {
        return None;
    }
    let next_id = archetype_ids[*next_index];

    // gets rolled over to 0 by wrapping_add
    a_rows[CURRENT_VAR] = ArchetypeRow(u32::MAX);
    let a_ref = &mut a_refs[CURRENT_VAR];
    *a_ref = &bk.archetypes[next_id.as_index()];
    a_ref.find_multiple_columns(
        &components_0,
        &mut col_indexes[CURRENT_VAR_COMPONENTS],
    );
    a_max_rows[CURRENT_VAR] = a_ref.entities.len() as u32;
    rel_helper_0.set_col(&a_ref.columns[col_indexes[2]]);

    current_step += 1;
}

// next row in archetype
1 => {
    const CURRENT_VAR: usize = 0;
    let row_counter = &mut a_rows[CURRENT_VAR].0;
    let max_row = a_max_rows[CURRENT_VAR];
    // rolls over to 0 for u32::MAX, which is our start value
    *row_counter = row_counter.wrapping_add(1);

    if *row_counter >= max_row {
        current_step -= 1;
    } else {
        rel_helper_0.set_row(bk, a_rows[0].0);

        current_step += 1;
    }
}

// follow relation
2 => {
    const REL_VAR: usize = 1;
    const REL_VAR_COMPONENTS: ::std::ops::Range<usize> = 3..5;
    if let Some(id) = rel_helper_0.next_related() {
        // get aid/row for entity in relation
        let (aid, arow) = bk.entities.get_archetype_unchecked(id);

        // if in target archetype set => go to next step
        if archetype_id_sets[REL_VAR].contains(&aid) {
            let a_ref = &mut a_refs[REL_VAR];
            *a_ref = &bk.archetypes[aid.as_index()];
            a_ref.find_multiple_columns(
                &components_1,
                &mut col_indexes[REL_VAR_COMPONENTS],
            );
            a_rows[REL_VAR] = arow;

            current_step += 1;
        }
    } else {
        current_step -= 1;
    }
}

// yield row
3 => {
    current_step -= 1;
    return Some(unsafe {
        (
            ::froql::entity_view_deferred::EntityViewDeferred::from_id_unchecked(world,
                                a_refs[0].entities[a_rows[0].0 as usize]),
            ::froql::query_helper::coerce_cast::<Unit>(
                world,
                a_refs[0].columns[col_indexes[0]].get(a_rows[0].0)
            ).borrow(),
            ::froql::query_helper::coerce_cast::<Unit>(
                world,
                a_refs[1].columns[col_indexes[3]].get(a_rows[1].0)
            ).borrow(),
            ::froql::query_helper::coerce_cast::<Health>(
                world,
                a_refs[0].columns[col_indexes[1]].get(a_rows[0].0)
            ).borrow_mut(),
        )
    });
}

_ => unreachable!(),
}}})

}"#;
