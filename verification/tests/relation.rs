use froql::bookkeeping::Bookkeeping;
use froql::component::{ComponentId, CASCADING_DESTRUCT, EXCLUSIVE, RELATION, SYMMETRIC, TRANSITIVE};
use froql::entity_store::Entity;

type World = Bookkeeping<()>;

fn register_relation_flags(world: &mut World, flags: u32) -> ComponentId {
    world.register(RELATION | flags, "Rel".to_string(), 16, 4)
}

fn relation_targets(world: &World, rel: ComponentId, e: Entity) -> Vec<Entity> {
    world.relation_partners(rel, e).unwrap_or_default()
}

fn relation_origins(world: &World, rel: ComponentId, e: Entity) -> Vec<Entity> {
    world.relation_partners(rel.flip_target(), e).unwrap_or_default()
}

#[test]
fn relation_relation_simple() {
    let mut world = World::new();
    let rel = register_relation_flags(&mut world, 0);
    let a = world.create();
    let b = world.create();
    assert!(!world.has_relation(rel, a, b));
    world.add_relation(rel, a, b);
    assert!(world.has_relation(rel, a, b));
    world.remove_relation(rel, a, b);
    assert!(!world.has_relation(rel, a, b));

    // removing multiple times is no problem
    world.remove_relation(rel, a, b);
    world.remove_relation(rel, a, b);
    world.remove_relation(rel, a, b);
    assert!(!world.has_relation(rel, a, b));
}

#[test]
fn relation_check_one_side() {
    let mut world = World::new();
    let rel = register_relation_flags(&mut world, 0);
    let a = world.create();
    let b = world.create();
    world.add_relation(rel, a, b);
    let targets = relation_targets(&world, rel, a);
    assert_eq!(&[b][..], &targets[..]);
    let origins = relation_origins(&world, rel, b);
    assert_eq!(&[a][..], &origins[..]);
}

#[test]
fn relation_relation_entity_destroy() {
    let mut world = World::new();
    let rel = register_relation_flags(&mut world, 0);
    let a = world.create();
    let b = world.create();
    assert!(!world.has_relation(rel, a, b));
    world.add_relation(rel, a, b);
    assert!(world.has_relation(rel, a, b));
    assert_eq!(1, relation_origins(&world, rel, b).len());
    world.destroy(a);
    assert_eq!(0, relation_origins(&world, rel, b).len());
    assert!(!world.has_relation(rel, a, b));
}

#[test]
fn relation_exlusive() {
    let mut world = World::new();
    let rel = register_relation_flags(&mut world, EXCLUSIVE);
    let a = world.create();
    let b = world.create();
    let c = world.create();
    assert!(!world.has_relation(rel, a, b));
    assert!(!world.has_relation(rel, a, c));
    world.add_relation(rel, a, b);
    assert!(world.has_relation(rel, a, b));
    assert!(!world.has_relation(rel, a, c));
    world.add_relation(rel, a, c);
    assert!(world.has_relation(rel, a, c));
    assert!(!world.has_relation(rel, a, b));
}

#[test]
fn relation_asymmetric() {
    let mut world = World::new();
    let rel = register_relation_flags(&mut world, 0);
    let a = world.create();
    let b = world.create();
    world.add_relation(rel, a, b);
    assert!(world.has_relation(rel, a, b));
    assert!(!world.has_relation(rel, b, a));
}

#[test]
fn relation_symmetric() {
    let mut world = World::new();
    let rel = register_relation_flags(&mut world, SYMMETRIC);
    let a = world.create();
    let b = world.create();
    assert!(!world.has_relation(rel, a, b));
    assert!(!world.has_relation(rel, b, a));
    world.add_relation(rel, a, b);
    assert!(world.has_relation(rel, a, b));
    assert!(world.has_relation(rel, b, a));
}

#[test]
fn relation_cascading() {
    let mut world = World::new();
    let rel = register_relation_flags(&mut world, CASCADING_DESTRUCT);
    let a = world.create();
    let b = world.create();
    world.add_relation(rel, a, b);

    assert!(world.has_relation(rel, a, b));
    assert!(world.is_alive(a));
    assert!(world.is_alive(b));

    world.destroy(a);
    assert!(!world.is_alive(a));
    assert!(!world.is_alive(b));
}

#[test]
fn relation_transitive() {
    let mut world = World::new();
    let rel = register_relation_flags(&mut world, TRANSITIVE);
    let a = world.create();
    let b = world.create();
    let c = world.create();
    let d = world.create();
    world.add_relation(rel, a, b);
    world.add_relation(rel, b, c);
    world.add_relation(rel, c, d);
    assert!(world.has_relation(rel, a, b));
    assert!(world.has_relation(rel, a, c));
    assert!(world.has_relation(rel, a, d));
}

#[test]
fn relation_transitive_circle() {
    let mut world = World::new();
    let rel = register_relation_flags(&mut world, TRANSITIVE);
    let a = world.create();
    let b = world.create();
    let c = world.create();
    let d = world.create();
    world.add_relation(rel, a, b);
    world.add_relation(rel, b, c);
    world.add_relation(rel, c, d);
    world.add_relation(rel, b, a);
    world.add_relation(rel, c, a);
    assert!(world.has_relation(rel, a, b));
    assert!(world.has_relation(rel, a, c));
    assert!(world.has_relation(rel, a, d));
}

#[test]
fn transitive_search_does_not_go_backwards() {
    let mut world = World::new();
    let rel = register_relation_flags(&mut world, TRANSITIVE);
    let a = world.create();
    let b = world.create();
    let c = world.create();
    world.add_relation(rel, a, b);
    world.add_relation(rel, b, c);
    assert!(!world.has_relation(rel, c, a));
    assert!(!world.has_relation(rel, b, a));
    // a non-transitive relation only counts direct partners
    let direct = register_relation_flags(&mut world, 0);
    world.add_relation(direct, a, b);
    world.add_relation(direct, b, c);
    assert!(!world.has_relation(direct, a, c));
}

#[test]
fn cascading_destruction_goes_on_through_chains() {
    let mut world = World::new();
    let rel = register_relation_flags(&mut world, CASCADING_DESTRUCT);
    let a = world.create();
    let b = world.create();
    let c = world.create();
    let d = world.create();
    world.add_relation(rel, a, b);
    world.add_relation(rel, b, c);
    world.add_relation(rel, d, a);
    world.destroy(a);
    assert!(!world.is_alive(a));
    assert!(!world.is_alive(b));
    assert!(!world.is_alive(c));
    // the origin stays, and forgot its target
    assert!(world.is_alive(d));
    assert!(!world.has_relation(rel, d, a));
    assert!(relation_targets(&world, rel, d).is_empty());
}

#[test]
fn relation_pairs_lists_every_pair_once() {
    let mut world = World::new();
    let rel = register_relation_flags(&mut world, 0);
    let a = world.create();
    let b = world.create();
    let c = world.create();
    world.add_relation(rel, a, b);
    world.add_relation(rel, a, c);
    world.add_relation(rel, c, b);
    let mut pairs: Vec<(u32, u32)> = world
        .relation_pairs(rel)
        .into_iter()
        .map(|(x, y)| (x.id.0, y.id.0))
        .collect();
    pairs.sort();
    assert_eq!(vec![(a.id.0, b.id.0), (a.id.0, c.id.0), (c.id.0, b.id.0)], pairs);
}

#[test]
fn add_then_remove_gives_back_the_partner_lists() {
    let mut world = World::new();
    let rel = register_relation_flags(&mut world, 0);
    let a = world.create();
    let b = world.create();
    let c = world.create();
    world.add_relation(rel, a, b);
    let before_a = relation_targets(&world, rel, a);
    let before_c = relation_origins(&world, rel, c);
    world.add_relation(rel, a, c);
    world.remove_relation(rel, a, c);
    assert_eq!(before_a, relation_targets(&world, rel, a));
    assert_eq!(before_c, relation_origins(&world, rel, c));
    assert!(!world.has_component(c, rel.flip_target()));
}

#[test]
fn symmetric_relation_to_self_lists_self_twice() {
    let mut world = World::new();
    let rel = register_relation_flags(&mut world, SYMMETRIC);
    let a = world.create();
    world.add_relation(rel, a, a);
    assert_eq!(vec![a, a], relation_targets(&world, rel, a));
    world.remove_relation(rel, a, a);
    assert!(relation_targets(&world, rel, a).is_empty());
}

#[test]
fn exclusive_relation_drops_the_old_pair_on_both_sides() {
    let mut world = World::new();
    let rel = register_relation_flags(&mut world, EXCLUSIVE);
    let a = world.create();
    let b = world.create();
    let c = world.create();
    world.add_relation(rel, a, b);
    world.add_relation(rel, a, c);
    assert!(world.has_relation(rel, a, c));
    assert!(!world.has_relation(rel, a, b));
    assert_eq!(relation_targets(&world, rel, a), vec![c]);
    assert!(relation_origins(&world, rel, b).is_empty());
    assert_eq!(relation_origins(&world, rel, c), vec![a]);
}

#[test]
fn symmetric_exclusive_relation_ends_the_old_friendship() {
    let mut world = World::new();
    let rel = register_relation_flags(&mut world, SYMMETRIC | EXCLUSIVE);
    let mustadir = world.create();
    let asif = world.create();
    world.add_relation(rel, asif, mustadir);
    let salman = world.create();
    world.add_relation(rel, asif, salman);
    assert!(world.has_relation(rel, salman, asif));
    assert!(world.has_relation(rel, asif, salman));
    assert!(!world.has_relation(rel, asif, mustadir));
    assert!(!world.has_relation(rel, mustadir, asif));
}

#[test]
fn removing_a_relation_added_twice_removes_it() {
    let mut world = World::new();
    let rel = register_relation_flags(&mut world, 0);
    let a = world.create();
    let b = world.create();
    world.add_relation(rel, a, b);
    world.add_relation(rel, a, b);
    world.remove_relation(rel, a, b);
    assert!(!world.has_relation(rel, a, b));
    assert!(relation_origins(&world, rel, b).is_empty());
    world.remove_relation(rel, a, b);
    assert!(!world.has_relation(rel, a, b));
}

#[test]
fn exclusive_relation_leaves_other_relations_and_entities_alone() {
    let mut world = World::new();
    let rel = register_relation_flags(&mut world, EXCLUSIVE);
    let other_rel = world.register(RELATION, "Other".to_string(), 16, 4);
    let a = world.create();
    let b = world.create();
    let c = world.create();
    let d = world.create();
    world.add_relation(other_rel, a, d);
    world.add_relation(other_rel, d, b);
    world.add_relation(rel, a, b);
    world.add_relation(rel, a, c);
    assert!(world.has_relation(other_rel, a, d));
    assert!(world.has_relation(other_rel, d, b));
    assert_eq!(relation_targets(&world, other_rel, a), vec![d]);
    assert_eq!(relation_targets(&world, other_rel, d), vec![b]);
    assert!(relation_targets(&world, rel, d).is_empty());
}
