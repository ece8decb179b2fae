use froql::archetype::ComponentValue;
use froql::bookkeeping::Bookkeeping;
use froql::component::{ComponentId, RELATION};
use froql::entity_store::Entity;

#[derive(Debug, Clone, PartialEq)]
enum Val {
    Pos(i32, i32),
    Name(String),
    Comp(i32),
}

fn register(bk: &mut Bookkeeping<Val>, name: &str, size: usize) -> ComponentId {
    bk.register(0, name.to_string(), size, 4)
}

fn register_relation(bk: &mut Bookkeeping<Val>, name: &str, flags: u32) -> ComponentId {
    bk.register(RELATION | flags, name.to_string(), 16, 4)
}

fn add(bk: &mut Bookkeeping<Val>, e: Entity, cid: ComponentId, v: Option<Val>) -> Option<Val> {
    match bk.ensure_component(e, cid, v.map(ComponentValue::Data)) {
        Some(ComponentValue::Data(old)) => Some(old),
        _ => None,
    }
}

fn get(bk: &Bookkeeping<Val>, e: Entity, cid: ComponentId) -> Val {
    match bk.get_component(e, cid) {
        ComponentValue::Data(v) => v.clone(),
        ComponentValue::Relation(_) => panic!("not a component"),
    }
}

fn origins(bk: &Bookkeeping<Val>, rel: ComponentId, e: Entity) -> usize {
    bk.relation_partners(rel.flip_target(), e).map_or(0, |v| v.len())
}

#[test]
fn world_create_and_get() {
    let mut world = Bookkeeping::new();
    let pos = register(&mut world, "Pos", 8);
    let name = register(&mut world, "Name", 24);

    let e = world.create();
    add(&mut world, e, pos, Some(Val::Pos(4, 2)));
    add(&mut world, e, name, Some(Val::Name("Player".to_string())));
    let other = world.create();
    add(&mut world, other, pos, Some(Val::Pos(5, 4)));
    add(&mut world, other, name, Some(Val::Name("Other".to_string())));

    assert_eq!(Val::Pos(4, 2), get(&world, e, pos));
    assert_eq!(Val::Name("Player".to_string()), get(&world, e, name));
    assert_eq!(Val::Pos(5, 4), get(&world, other, pos));
    assert_eq!(Val::Name("Other".to_string()), get(&world, other, name));
}

#[test]
fn world_create_remove_get() {
    let mut world = Bookkeeping::new();
    let pos = register(&mut world, "Pos", 8);
    let name = register(&mut world, "Name", 24);

    let e = world.create();
    add(&mut world, e, pos, Some(Val::Pos(4, 2)));
    add(&mut world, e, name, Some(Val::Name("Player".to_string())));
    assert!(world.has_component(e, pos));
    assert!(world.has_component(e, name));
    let other = world.create();
    add(&mut world, other, pos, Some(Val::Pos(5, 4)));
    add(&mut world, other, name, Some(Val::Name("Other".to_string())));

    world.remove_component(e, pos);
    world.remove_component(e, name);
    assert!(!world.has_component(e, pos));
    assert!(!world.has_component(e, name));

    assert_eq!(Val::Pos(5, 4), get(&world, other, pos));
    assert_eq!(Val::Name("Other".to_string()), get(&world, other, name));
}

#[test]
fn world_create_destroy_get() {
    let mut world = Bookkeeping::new();
    let pos = register(&mut world, "Pos", 8);
    let name = register(&mut world, "Name", 24);

    let e = world.create();
    add(&mut world, e, pos, Some(Val::Pos(4, 2)));
    add(&mut world, e, name, Some(Val::Name("Player".to_string())));
    let other = world.create();
    add(&mut world, other, pos, Some(Val::Pos(5, 4)));
    add(&mut world, other, name, Some(Val::Name("Other".to_string())));

    world.destroy(e);

    assert!(!world.is_alive(e));
    assert_eq!(Val::Pos(5, 4), get(&world, other, pos));
    assert_eq!(Val::Name("Other".to_string()), get(&world, other, name));
}

#[test]
fn component_mut() {
    let mut world = Bookkeeping::new();
    let pos = register(&mut world, "Pos", 8);

    let e = world.create();
    add(&mut world, e, pos, Some(Val::Pos(4, 2)));
    assert_eq!(Val::Pos(4, 2), get(&world, e, pos));

    let old = add(&mut world, e, pos, Some(Val::Pos(20, 30)));
    assert_eq!(Some(Val::Pos(4, 2)), old);

    assert_eq!(Val::Pos(20, 30), get(&world, e, pos));
}

#[test]
fn zst_component() {
    let mut world = Bookkeeping::new();
    let comp = register(&mut world, "Comp", 0);
    let a = world.create();
    assert!(!world.has_component(a, comp));
    add(&mut world, a, comp, None);
    assert!(world.has_component(a, comp));
    assert!(world.get_component_opt(a, comp).is_none());

    world.remove_component(a, comp);
    assert!(!world.has_component(a, comp));
}

#[test]
fn add_component_twice() {
    let mut world = Bookkeeping::new();
    let comp = register(&mut world, "Comp", 4);
    let e = world.create();
    add(&mut world, e, comp, Some(Val::Comp(42)));
    let dropped = add(&mut world, e, comp, Some(Val::Comp(50)));

    assert_eq!(Val::Comp(50), get(&world, e, comp));
    assert_eq!(Some(Val::Comp(42)), dropped);
}

#[test]
fn automatic_registration() {
    let mut world = Bookkeeping::new();
    let e = world.create();
    let comp = register(&mut world, "Comp", 0);
    let rel = register_relation(&mut world, "Rel", 0);
    let other = world.create();
    add(&mut world, other, comp, None);
    world.add_relation(rel, other, e);
    assert!(world.has_relation(rel, other, e));
}

#[test]
fn relate_to_self() {
    let mut world = Bookkeeping::new();
    let rel = register_relation(&mut world, "Rel", 0);
    let e = world.create();
    world.add_relation(rel, e, e);
    assert!(world.has_relation(rel, e, e));
    assert_eq!(1, origins(&world, rel, e));
}

#[test]
fn create_and_take() {
    let mut world = Bookkeeping::new();
    let pos = register(&mut world, "Pos", 8);

    let e = world.create();
    add(&mut world, e, pos, Some(Val::Pos(1, 2)));
    let comp = world.remove_component(e, pos);

    assert!(matches!(comp, Some(ComponentValue::Data(Val::Pos(1, 2)))));
    let comp = world.remove_component(e, pos);
    assert!(comp.is_none());
    let comp = world.remove_component(e, pos);
    assert!(comp.is_none());
}

#[test]
fn world_relation_simple() {
    let mut world = Bookkeeping::<Val>::new();
    let rel = register_relation(&mut world, "Rel", 0);
    let a = world.create();
    let b = world.create();
    assert!(!world.has_relation(rel, a, b));
    world.add_relation(rel, a, b);
    assert!(world.has_relation(rel, a, b));
    world.remove_relation(rel, a, b);
    assert!(!world.has_relation(rel, a, b));

    // removing multiple times is no problem
    world.remove_relation(rel, a, b);
    world.remove_relation(rel, a, b);
    world.remove_relation(rel, a, b);
    assert!(!world.has_relation(rel, a, b));
}

#[test]
fn world_relation_entity_destroy() {
    let mut world = Bookkeeping::<Val>::new();
    let rel = register_relation(&mut world, "Rel", 0);
    let a = world.create();
    let b = world.create();
    assert!(!world.has_relation(rel, a, b));
    world.add_relation(rel, a, b);
    assert!(world.has_relation(rel, a, b));
    assert_eq!(1, origins(&world, rel, b));
    world.destroy(a);
    assert_eq!(0, origins(&world, rel, b));
    assert!(!world.has_relation(rel, a, b));
}

#[test]
fn components_move_between_archetypes_and_keep_values() {
    let mut world = Bookkeeping::new();
    let pos = register(&mut world, "Pos", 8);
    let tag = register(&mut world, "Tag", 0);
    let name = register(&mut world, "Name", 24);
    let e = world.create();
    let f = world.create();
    add(&mut world, e, pos, Some(Val::Pos(1, 1)));
    add(&mut world, f, pos, Some(Val::Pos(2, 2)));
    add(&mut world, e, tag, None);
    add(&mut world, e, name, Some(Val::Name("e".to_string())));
    // empty archetype, {pos}, {pos, tag}, {pos, tag, name}
    assert_eq!(4, world.archetype_count());
    assert_eq!(Val::Pos(1, 1), get(&world, e, pos));
    assert_eq!(Val::Pos(2, 2), get(&world, f, pos));
    // taking the tag out keeps the name (the key of the archetype has no size-less
    // components missing)
    assert!(world.remove_component(e, tag).is_none());
    assert!(world.has_component(e, name));
    assert!(!world.has_component(e, tag));
    assert_eq!(Val::Name("e".to_string()), get(&world, e, name));
    // removing an absent component changes nothing
    let before = world.archetype_count();
    assert!(world.remove_component(f, name).is_none());
    assert_eq!(before, world.archetype_count());
    assert_eq!(Val::Pos(2, 2), get(&world, f, pos));
}

#[test]
fn dead_entities_have_no_components() {
    let mut world = Bookkeeping::new();
    let pos = register(&mut world, "Pos", 8);
    let e = world.create();
    add(&mut world, e, pos, Some(Val::Pos(1, 1)));
    world.destroy(e);
    assert!(!world.has_component(e, pos));
    // the slot is reused with a new generation
    let f = world.create();
    assert_eq!(e.id, f.id);
    assert_ne!(e.generation, f.generation);
    assert!(!world.has_component(f, pos));
}

#[test]
fn ensure_alive_revives_and_grows() {
    let mut world = Bookkeeping::<Val>::new();
    let e = world.ensure_alive(froql::entity_store::EntityId(3)).unwrap();
    assert_eq!(3, e.id.0);
    assert!(world.is_alive(e));
    let again = world.ensure_alive(froql::entity_store::EntityId(3)).unwrap();
    assert_eq!(e, again);
    // the store grew with empty slots that get reused first
    let f = world.create();
    assert!(f.id.0 < 3);
}

#[test]
fn destroying_leaves_unrelated_entities_as_they_were() {
    let mut world = Bookkeeping::<Val>::new();
    let rel = register_relation(&mut world, "Rel", 0);
    let pos = register(&mut world, "Pos", 8);
    let name = register(&mut world, "Name", 24);
    let a = world.create();
    let b = world.create();
    let other = world.create();
    add(&mut world, other, pos, Some(Val::Pos(5, 4)));
    add(&mut world, other, name, Some(Val::Name("Other".to_string())));
    world.add_relation(rel, a, b);
    world.destroy(a);
    assert!(!world.is_alive(a));
    assert!(world.is_alive(b));
    assert!(world.is_alive(other));
    assert_eq!(0, origins(&world, rel, b));
    assert_eq!(Val::Pos(5, 4), get(&world, other, pos));
    assert_eq!(Val::Name("Other".to_string()), get(&world, other, name));
}
