use froql::archetype::{ArchetypeId, ArchetypeRow, ComponentValue};
use froql::bookkeeping::Bookkeeping;
use froql::component::{ComponentId, RELATION, TRANSITIVE};
use froql::query_helper::{
    grab_archetype_id, grab_archetype_row, trivial_query_one_component, RelationHelper,
    UnrelationHelper,
};

#[derive(Debug, Clone, PartialEq)]
enum Val {
    A(usize),
    B(String),
}

fn add(world: &mut Bookkeeping<Val>, e: froql::entity_store::Entity, cid: ComponentId, v: Option<Val>) {
    world.ensure_component(e, cid, v.map(ComponentValue::Data));
}

fn data(v: &ComponentValue<Val>) -> &Val {
    match v {
        ComponentValue::Data(d) => d,
        ComponentValue::Relation(_) => panic!("not a component"),
    }
}

fn run_two_component_query(expected_b: &[&str]) {
    let mut world = Bookkeeping::new();
    let comp_a = world.register(0, "CompA".to_string(), 8, 8);
    let comp_b = world.register(0, "CompB".to_string(), 24, 8);
    let comp_c = world.register(0, "CompC".to_string(), 0, 1);
    let a = world.create();
    add(&mut world, a, comp_a, Some(Val::A(42)));
    add(&mut world, a, comp_b, Some(Val::B(expected_b[0].to_string())));
    let b = world.create();
    add(&mut world, b, comp_a, Some(Val::A(21)));
    let c = world.create();
    add(&mut world, c, comp_a, Some(Val::A(42)));
    add(&mut world, c, comp_b, Some(Val::B(expected_b[1].to_string())));
    add(&mut world, c, comp_c, None);

    let components = [comp_a, comp_b];
    let archetype_ids = world.matching_archetypes(&components, &[]);
    assert_eq!(archetype_ids.len(), 2);
    let mut counter = 0;
    let mut seen = Vec::new();
    for aid in archetype_ids {
        let arch = &world.archetypes[aid.0 as usize];
        let mut col_ids = [usize::MAX; 2];
        arch.find_multiple_columns(&components, &mut col_ids);
        for row in 0..arch.columns[col_ids[0]].len() {
            let comp_a = data(arch.columns[col_ids[0]].get(row as u32));
            let comp_b = data(arch.columns[col_ids[1]].get(row as u32));
            assert_eq!(&Val::A(42), comp_a);
            if let Val::B(s) = comp_b {
                seen.push(s.clone());
            }
            counter += 1;
        }
    }
    assert_eq!(2, counter);
    seen.sort();
    let mut expected: Vec<String> = expected_b.iter().map(|s| s.to_string()).collect();
    expected.sort();
    assert_eq!(expected, seen);
}

#[test]
fn test1() {
    run_two_component_query(&["Hello", "Hello"]);
}

#[test]
fn manual_query_helper_trivial() {
    run_two_component_query(&["Hello", "World"]);
}

#[test]
fn manual_query_manual_query_simple() {
    let mut world = Bookkeeping::<Val>::new();
    let _a = world.create();
    let _b = world.create();
    assert_eq!(1, world.archetype_count());
}

#[test]
fn matching_archetypes_with_and_without() {
    let mut world = Bookkeeping::new();
    let comp_a = world.register(0, "CompA".to_string(), 8, 8);
    let comp_b = world.register(0, "CompB".to_string(), 24, 8);
    let a = world.create();
    add(&mut world, a, comp_a, Some(Val::A(1)));
    let b = world.create();
    add(&mut world, b, comp_a, Some(Val::A(2)));
    add(&mut world, b, comp_b, Some(Val::B("b".to_string())));
    let only_b = world.create();
    add(&mut world, only_b, comp_b, Some(Val::B("c".to_string())));
    // archetypes: 0 = {}, 1 = {a}, 2 = {a, b}, 3 = {b}
    assert_eq!(vec![ArchetypeId(1)], world.matching_archetypes(&[comp_a], &[comp_b]));
    assert_eq!(vec![ArchetypeId(0), ArchetypeId(1)], world.matching_archetypes(&[], &[comp_b]));
    assert_eq!(vec![ArchetypeId(2), ArchetypeId(3)], world.matching_archetypes(&[comp_b], &[]));
    assert_eq!(vec![ArchetypeId(0)], world.matching_archetypes(&[], &[comp_a, comp_b]));

    let mut with_a = trivial_query_one_component(&world, comp_a);
    with_a.sort_by_key(|e| e.0);
    assert_eq!(vec![a.id, b.id], with_a);
}

#[test]
fn relation_helper_walks_partners() {
    let mut world = Bookkeeping::<Val>::new();
    let rel = world.register(RELATION | TRANSITIVE, "Rel".to_string(), 16, 4);
    let direct = world.register(RELATION, "Direct".to_string(), 16, 4);
    let a = world.create();
    let b = world.create();
    let c = world.create();
    world.add_relation(rel, a, b);
    world.add_relation(rel, b, c);
    world.add_relation(direct, a, c);

    // the archetype of `a` holds both origin sides, `a` is its only entity
    let (aid, row) = world.entities.get_archetype(a);
    let arch = &world.archetypes[aid.0 as usize];
    let col = arch.find_column(rel);
    let mut helper = RelationHelper::new(rel);
    helper.set_col(col);
    helper.set_row(&world, row.0);
    assert_eq!(Some(b.id), helper.next_related());
    assert_eq!(Some(c.id), helper.next_related());
    assert_eq!(None, helper.next_related());
    assert!(helper.has_relation(c.id));
    assert!(!helper.has_relation(a.id));

    let dcol = arch.find_column(direct);
    let mut dhelper = RelationHelper::new(direct);
    dhelper.set_col(dcol);
    dhelper.set_row(&world, row.0);
    assert_eq!(Some(c.id), dhelper.next_related());
    assert_eq!(None, dhelper.next_related());
    assert!(!dhelper.has_relation(b.id));

    let mut un = UnrelationHelper::new(direct);
    un.set_col(arch);
    un.set_row(&world, row.0);
    assert!(!un.satisfied(c.id));
    assert!(un.satisfied(b.id));

    // an archetype without the relation side satisfies every unrelation
    let (aid_c, row_c) = world.entities.get_archetype(c);
    let arch_c = &world.archetypes[aid_c.0 as usize];
    let mut un_c = UnrelationHelper::new(direct);
    un_c.set_col(arch_c);
    un_c.set_row(&world, row_c.0);
    assert!(un_c.satisfied(a.id));
    assert!(world.is_alive(a) && world.is_alive(b));
}

#[test]
fn grabbing_archetypes_and_rows() {
    let mut world = Bookkeeping::<Val>::new();
    let comp_a = world.register(0, "CompA".to_string(), 8, 8);
    let x = world.create();
    let y = world.create();
    add(&mut world, x, comp_a, Some(Val::A(1)));
    add(&mut world, y, comp_a, Some(Val::A(2)));
    let set = world.matching_archetypes(&[comp_a], &[]);
    let mut ids = [ArchetypeId(0)];
    let mut rows = [ArchetypeRow(0)];
    let mut next = 0;
    assert!(grab_archetype_id(&mut ids, &mut rows, 0, &set, &mut next));
    assert_eq!(ArchetypeRow(u32::MAX), rows[0]);
    assert!(grab_archetype_row(&ids, &mut rows, 0, &world));
    assert_eq!(ArchetypeRow(0), rows[0]);
    assert!(grab_archetype_row(&ids, &mut rows, 0, &world));
    assert!(!grab_archetype_row(&ids, &mut rows, 0, &world));
    assert!(!grab_archetype_id(&mut ids, &mut rows, 0, &set, &mut next));
}
