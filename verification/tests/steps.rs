use froql::archetype_start::{ArchetypeStart, Checks};
use froql::generator::RelationHelperInfo;
use froql::invar_start::{InvarInfo, InvarStart};
use froql::join_order::{RelationConstraint, UnrelationConstraint};
use froql::relation_join::RelationJoin;

fn no_checks() -> Checks {
    Checks { unequals: vec![], rel_constraints: vec![], unrel_constraints: vec![] }
}

#[test]
fn normal() {
    let gen = ArchetypeStart {
        var: 0,
        components: 0..2,
        opt_components: vec![],
        relation_helpers: vec![],
        unrelation_helpers: vec![],
        checks: no_checks(),
    };
    let mut prepend = String::new();
    let mut append = String::new();
    let r = gen.generate(0, &mut prepend, &mut append);
    assert_eq!(2, r);
    assert_eq!(prepend, "");
    assert_eq!(append, NORMAL);
}

#[test]
fn check_unequal() {
    let gen = ArchetypeStart {
        var: 0,
        components: 0..2,
        opt_components: vec![],
        relation_helpers: vec![],
        unrelation_helpers: vec![],
        checks: Checks { unequals: vec![(0, 1)], rel_constraints: vec![], unrel_constraints: vec![] },
    };
    let mut prepend = String::new();
    let mut append = String::new();
    let r = gen.generate(0, &mut prepend, &mut append);
    assert_eq!(2, r);
    assert_eq!(prepend, "");
    assert_eq!(append, CHECK_UNEQUAL);
}

#[test]
fn archetype_start_with_helpers_and_optional_components() {
    let gen = ArchetypeStart {
        var: 1,
        components: 4..6,
        opt_components: vec![("Opt".to_string(), 3)],
        relation_helpers: vec![RelationHelperInfo { cid_index: 2, column_index: 5, old_var: 1, new_var: 0, nr: 7 }],
        unrelation_helpers: vec![],
        checks: no_checks(),
    };
    let mut prepend = String::new();
    let mut append = String::new();
    let r = gen.generate(10, &mut prepend, &mut append);
    assert_eq!(12, r);
    assert_eq!(
        prepend,
        "\nlet opt_cid_3 = world.get_component_id::<Opt>();\nlet mut opt_col_3 = None;\nlet mut rel_helper_7 = ::froql::query_helper::RelationHelper::new\n    (components_1[2]);\n"
    );
    assert!(append.starts_with("\n10 => {\n    const CURRENT_VAR: usize = 1;\n    const CURRENT_VAR_COMPONENTS: ::std::ops::Range<usize> = 4..6;"));
    assert!(append.contains("a_ref.entities.len() as u32;\n            opt_col_3 = a_ref.find_column_opt(opt_cid_3);\n\n    rel_helper_7.set_col(&a_ref.columns[col_indexes[5]]);\n\n    current_step += 1;\n}\n"));
    assert!(append.contains("\n// next row in archetype\n11 => {"));
    assert!(append.ends_with("    } else {\n        rel_helper_7.set_row(bk, a_rows[1].0);\n\n        current_step += 1;\n    }\n}\n"));
}

#[test]
fn invar_trivial() {
    let generator = InvarStart {
        unequalities: vec![],
        rel_constraints: vec![],
        unrel_constraints: vec![],
        invars: vec![InvarInfo {
            var_index: 0,
            component_range: 0..2,
            opt_components: vec![],
            relation_helpers: vec![],
            unrelation_helpers: vec![],
        }],
    };
    let mut prepend = String::new();
    let mut append = String::new();
    let r = generator.generate(0, &mut prepend, &mut append);
    assert_eq!(2, r);
    assert_eq!(prepend, "");
    assert_eq!(append, INVAR_TRIVIAL);
}

#[test]
fn invar_start_with_checks_ends_the_query_when_one_fails() {
    let generator = InvarStart {
        unequalities: vec![(0, 1)],
        rel_constraints: vec![],
        unrel_constraints: vec![UnrelationConstraint { helper_nr: 2, checked_invar: Some(1) }],
        invars: vec![],
    };
    let mut prepend = String::new();
    let mut append = String::new();
    let r = generator.generate(5, &mut prepend, &mut append);
    assert_eq!(7, r);
    assert_eq!(prepend, "");
    assert_eq!(
        append,
        "\n5 => {\n\n            if\n                (::std::ptr::eq(a_refs[0], a_refs[1])\n                 && a_rows[0] == a_rows[1])\n            ||\n                !unrel_helper_2.satisfied(invar_1.id)\n                \n    {\n        return None;\n    } else {\n        current_step += 2;\n    }\n}\n6 => {\n    return None;\n}\n"
    );
}

fn join(
    unequal_constraints: Vec<(isize, isize)>,
    rel_constraints: Vec<RelationConstraint>,
    opt_components: Vec<(String, usize)>,
) -> RelationJoin {
    RelationJoin {
        new: 2,
        new_components: 3..5,
        unequal_constraints,
        rel_constraints,
        unrel_constraints: vec![],
        opt_components,
        new_relation_helpers: vec![],
        new_unrelation_helpers: vec![],
        new_helper_nr: 0,
    }
}

#[test]
fn relation_join_relation_join_unequality() {
    let generator = join(vec![(0, 2), (2, 1)], vec![], vec![]);
    let mut prepend = String::new();
    let mut append = String::new();
    let r = generator.generate(3, &mut prepend, &mut append);
    assert_eq!(4, r);
    assert_eq!(prepend, "");
    assert_eq!(append, JOIN_UNEQUALITY);
}

#[test]
fn relation_join_constraint() {
    let generator = join(vec![], vec![RelationConstraint { helper_nr: 0, checked_invar: None }], vec![]);
    let mut prepend = String::new();
    let mut append = String::new();
    let r = generator.generate(3, &mut prepend, &mut append);
    assert_eq!(4, r);
    assert_eq!(prepend, "");
    assert_eq!(append, JOIN_CONSTRAINT);
}

#[test]
fn relation_join_optional() {
    let generator = join(vec![], vec![], vec![("OptA".into(), 0), ("OptB".into(), 1)]);
    let mut prepend = String::new();
    let mut append = String::new();
    let r = generator.generate(3, &mut prepend, &mut append);
    assert_eq!(4, r);
    assert_eq!(
        prepend,
        "\nlet opt_cid_0 = world.get_component_id::<OptA>();\nlet mut opt_col_0 = None;\nlet opt_cid_1 = world.get_component_id::<OptB>();\nlet mut opt_col_1 = None;"
    );
    assert_eq!(append, JOIN_OPTIONAL);
}

#[test]
fn relation_join_sets_up_helpers_of_the_new_variable() {
    let mut generator = join(vec![], vec![], vec![]);
    generator.new_relation_helpers =
        vec![RelationHelperInfo { cid_index: 1, column_index: 4, old_var: 2, new_var: 3, nr: 6 }];
    generator.new_helper_nr = 9;
    let mut prepend = String::new();
    let mut append = String::new();
    let r = generator.generate(0, &mut prepend, &mut append);
    assert_eq!(1, r);
    assert_eq!(
        prepend,
        "\nlet mut rel_helper_6 = ::froql::query_helper::RelationHelper::new\n    (components_2[1]);\n"
    );
    assert!(append.contains("if let Some(id) = rel_helper_9.next_related() {"));
    assert!(append.contains("a_rows[REL_VAR] = arow;\n\n    rel_helper_6.set_col(&a_ref.columns[col_indexes[4]]);\n\n        rel_helper_6.set_row(bk, a_rows[2].0);\n\n            current_step += 1;\n        }\n"));
}

const NORMAL: &str = "\n0 => {\n    const CURRENT_VAR: usize = 0;\n    const CURRENT_VAR_COMPONENTS: ::std::ops::Range<usize> = 0..2;\n    let next_index = &mut a_next_indexes[CURRENT_VAR];\n    let archetype_ids = &archetype_id_sets[CURRENT_VAR];\n    *next_index = next_index.wrapping_add(1);\n    if *next_index >= archetype_ids.len() {\n        return None;\n    }\n    let next_id = archetype_ids[*next_index];\n\n    // gets rolled over to 0 by wrapping_add\n    a_rows[CURRENT_VAR] = ArchetypeRow(u32::MAX);\n    let a_ref = &mut a_refs[CURRENT_VAR];\n    *a_ref = &bk.archetypes[next_id.as_index()];\n    a_ref.find_multiple_columns(\n        &components_0,\n        &mut col_indexes[CURRENT_VAR_COMPONENTS],\n    );\n    a_max_rows[CURRENT_VAR] = a_ref.entities.len() as u32;\n    current_step += 1;\n}\n\n// next row in archetype\n1 => {\n    const CURRENT_VAR: usize = 0;\n    let row_counter = &mut a_rows[CURRENT_VAR].0;\n    let max_row = a_max_rows[CURRENT_VAR];\n    // rolls over to 0 for u32::MAX, which is our start value\n    *row_counter = row_counter.wrapping_add(1);\n\n    if *row_counter >= max_row {\n        current_step -= 1;\n    } else {\n        current_step += 1;\n    }\n}\n";

const CHECK_UNEQUAL: &str = "\n0 => {\n    const CURRENT_VAR: usize = 0;\n    const CURRENT_VAR_COMPONENTS: ::std::ops::Range<usize> = 0..2;\n    let next_index = &mut a_next_indexes[CURRENT_VAR];\n    let archetype_ids = &archetype_id_sets[CURRENT_VAR];\n    *next_index = next_index.wrapping_add(1);\n    if *next_index >= archetype_ids.len() {\n        return None;\n    }\n    let next_id = archetype_ids[*next_index];\n\n    // gets rolled over to 0 by wrapping_add\n    a_rows[CURRENT_VAR] = ArchetypeRow(u32::MAX);\n    let a_ref = &mut a_refs[CURRENT_VAR];\n    *a_ref = &bk.archetypes[next_id.as_index()];\n    a_ref.find_multiple_columns(\n        &components_0,\n        &mut col_indexes[CURRENT_VAR_COMPONENTS],\n    );\n    a_max_rows[CURRENT_VAR] = a_ref.entities.len() as u32;\n    current_step += 1;\n}\n\n// next row in archetype\n1 => {\n    const CURRENT_VAR: usize = 0;\n    let row_counter = &mut a_rows[CURRENT_VAR].0;\n    let max_row = a_max_rows[CURRENT_VAR];\n    // rolls over to 0 for u32::MAX, which is our start value\n    *row_counter = row_counter.wrapping_add(1);\n\n    if *row_counter >= max_row {\n        current_step -= 1;\n    } else {\n        let id = a_refs[CURRENT_VAR].entities[a_rows[CURRENT_VAR].as_index()];\n            if\n                (::std::ptr::eq(a_refs[0], a_refs[1])\n                 && a_rows[0] == a_rows[1])\n        {} else {\n            current_step += 1;\n        }\n    }\n}\n";

const INVAR_TRIVIAL: &str = "\n0 => {\n\n{\n    let (aid, arow) = bk.entities.get_archetype(invar_0);\n    let a_ref = &mut a_refs[0];\n    *a_ref = &bk.archetypes[aid.as_index()];\n    if !a_ref.find_multiple_columns_fallible(&components_0, &mut col_indexes[0..2]) {\n        return None;\n    }\n    a_rows[0] = arow;\n}\n\n    current_step += 2;\n}\n1 => {\n    return None;\n}\n";

const JOIN_UNEQUALITY: &str = "\n// follow relation\n3 => {\n    const REL_VAR: usize = 2;\n    const REL_VAR_COMPONENTS: ::std::ops::Range<usize> = 3..5;\n    if let Some(id) = rel_helper_0.next_related() {\n        // get aid/row for entity in relation\n        let (aid, arow) = bk.entities.get_archetype_unchecked(id);\n\n        // if in target archetype set => go to next step\n        if archetype_id_sets[REL_VAR].contains(&aid) {\n            let a_ref = &mut a_refs[REL_VAR];\n            *a_ref = &bk.archetypes[aid.as_index()];\n            a_ref.find_multiple_columns(\n                &components_2,\n                &mut col_indexes[REL_VAR_COMPONENTS],\n            );\n            a_rows[REL_VAR] = arow;\n\n            if\n                (::std::ptr::eq(a_refs[0], a_refs[2])\n                 && a_rows[0] == a_rows[2])\n            ||\n                (::std::ptr::eq(a_refs[2], a_refs[1])\n                 && a_rows[2] == a_rows[1])\n            {\n            } else {\n                current_step += 1;\n            }\n        }\n    } else {\n        current_step -= 1;\n    }\n}\n";

const JOIN_CONSTRAINT: &str = "\n// follow relation\n3 => {\n    const REL_VAR: usize = 2;\n    const REL_VAR_COMPONENTS: ::std::ops::Range<usize> = 3..5;\n    if let Some(id) = rel_helper_0.next_related() {\n        // get aid/row for entity in relation\n        let (aid, arow) = bk.entities.get_archetype_unchecked(id);\n\n        // if in target archetype set => go to next step\n        if archetype_id_sets[REL_VAR].contains(&aid) {\n            let a_ref = &mut a_refs[REL_VAR];\n            *a_ref = &bk.archetypes[aid.as_index()];\n            a_ref.find_multiple_columns(\n                &components_2,\n                &mut col_indexes[REL_VAR_COMPONENTS],\n            );\n            a_rows[REL_VAR] = arow;\n\n            if\n                !rel_helper_0.has_relation(id)\n                \n            {\n            } else {\n                current_step += 1;\n            }\n        }\n    } else {\n        current_step -= 1;\n    }\n}\n";

const JOIN_OPTIONAL: &str = "\n// follow relation\n3 => {\n    const REL_VAR: usize = 2;\n    const REL_VAR_COMPONENTS: ::std::ops::Range<usize> = 3..5;\n    if let Some(id) = rel_helper_0.next_related() {\n        // get aid/row for entity in relation\n        let (aid, arow) = bk.entities.get_archetype_unchecked(id);\n\n        // if in target archetype set => go to next step\n        if archetype_id_sets[REL_VAR].contains(&aid) {\n            let a_ref = &mut a_refs[REL_VAR];\n            *a_ref = &bk.archetypes[aid.as_index()];\n            a_ref.find_multiple_columns(\n                &components_2,\n                &mut col_indexes[REL_VAR_COMPONENTS],\n            );\n            a_rows[REL_VAR] = arow;\n\n            opt_col_0 = a_ref.find_column_opt(opt_cid_0);\n\n            opt_col_1 = a_ref.find_column_opt(opt_cid_1);\n\n            current_step += 1;\n        }\n    } else {\n        current_step -= 1;\n    }\n}\n";
