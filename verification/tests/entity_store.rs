use froql::entity_store::{Entity, EntityGeneration, EntityId, EntityStore, ForceAliveResult};

#[test]
fn entity_create() {
    let mut store = EntityStore::new();
    for _ in 0..10 {
        store.create();
    }
    let e = store.create();
    assert_eq!(10, e.id.0);
    assert_eq!(1, e.generation.0);
}

#[test]
fn entity_store_entity_create() {
    let mut store = EntityStore::new();
    for _ in 0..10 {
        store.create();
    }
    let e = store.create();
    assert_eq!(10, e.id.0);
    assert_eq!(1, e.generation.0);
}

#[test]
fn entity_create_deferred() {
    let mut store = EntityStore::new();
    for _ in 0..10 {
        store.create();
    }
    let e = store.create();
    assert_eq!(11, store.next_free());
    store.destroy(e);
    assert_eq!(10, store.next_free());

    let _e = store.create_deferred();
    let e = store.create_deferred();
    assert_eq!(11, e.id.0);
    assert_eq!(1, e.generation.0);
}

#[test]
fn entity_reuse() {
    let mut store = EntityStore::new();
    let e = store.create();
    store.destroy(e);
    let e = store.create();
    assert_eq!(0, e.id.0);
    assert_eq!(3, e.generation.0);
    store.destroy(e);
    let e = store.create();
    assert_eq!(0, e.id.0);
    assert_eq!(5, e.generation.0);
}

#[test]
fn entity_store_entity_reuse() {
    let mut store = EntityStore::new();
    let e = store.create();
    store.destroy(e);
    let e = store.create();
    assert_eq!(0, e.id.0);
    assert_eq!(3, e.generation.0);
    store.destroy(e);
    let e = store.create();
    assert_eq!(0, e.id.0);
    assert_eq!(5, e.generation.0);
}

#[test]
fn force_alive() {
    let mut store = EntityStore::new();
    let e1 = store.create();
    assert_eq!(0, e1.id.0);
    assert_eq!(1, e1.generation.0);
    let e = match store.force_alive(EntityId(5)) {
        ForceAliveResult::MadeAlive(entity) => entity,
        ForceAliveResult::WasAliveBefore(_) => unreachable!(),
    };
    assert_eq!(5, e.id.0);
    assert_eq!(3, e.generation.0);

    let e = store.create();
    assert_eq!(4, e.id.0);
    assert_eq!(3, e.generation.0);
    let e = match store.force_alive(e.id) {
        ForceAliveResult::MadeAlive(_) => unreachable!("Wrong result."),
        ForceAliveResult::WasAliveBefore(ent) => ent,
    };
    assert_eq!(4, e.id.0);
    assert_eq!(3, e.generation.0);

    assert_eq!(3, store.create().id.0);
    assert_eq!(2, store.create().id.0);
    assert_eq!(1, store.create().id.0);
    assert_eq!(6, store.create().id.0);
}

#[test]
fn force_alive_twice() {
    let mut store = EntityStore::new();
    let e1 = store.create();
    assert_eq!(0, e1.id.0);
    assert_eq!(1, e1.generation.0);
    let e = match store.force_alive(EntityId(5)) {
        ForceAliveResult::MadeAlive(entity) => entity,
        ForceAliveResult::WasAliveBefore(_) => unreachable!(),
    };
    assert_eq!(5, e.id.0);
    assert_eq!(3, e.generation.0);

    let e2 = match store.force_alive(EntityId(3)) {
        ForceAliveResult::MadeAlive(entity) => entity,
        ForceAliveResult::WasAliveBefore(_) => unreachable!(),
    };
    assert_eq!(3, e2.id.0);
    assert_eq!(3, e2.generation.0);

    assert_eq!(4, store.create().id.0);
    assert_eq!(2, store.create().id.0);
    assert_eq!(1, store.create().id.0);
    assert_eq!(6, store.create().id.0);
    assert_eq!(7, store.create().id.0);
}

#[test]
fn force_alive_and_defer() {
    let mut store = EntityStore::new();
    let e1 = store.create();
    assert_eq!(0, e1.id.0);
    assert_eq!(1, e1.generation.0);
    let e = match store.force_alive(EntityId(2)) {
        ForceAliveResult::MadeAlive(entity) => entity,
        ForceAliveResult::WasAliveBefore(_) => unreachable!(),
    };
    assert_eq!(2, e.id.0);
    assert_eq!(1, store.create().id.0);
    assert_eq!(3, store.create_deferred().id.0);
    assert_eq!(4, store.create_deferred().id.0);
    assert_eq!(5, store.create_deferred().id.0);
}

#[test]
fn destroyed_entity_is_dead_and_slot_goes_to_free_list_head() {
    let mut store = EntityStore::new();
    let a = store.create();
    let b = store.create();
    assert!(store.is_alive(a));
    store.destroy(a);
    assert!(!store.is_alive(a));
    assert!(store.is_alive(b));
    assert_eq!(0, store.next_free());
    // destroying twice changes nothing
    store.destroy(a);
    assert_eq!(0, store.next_free());
    assert!(!store.is_slot_alive(EntityId(0)));
    assert!(store.is_slot_alive(EntityId(1)));
    assert!(!store.is_slot_alive(EntityId(7)));
}

#[test]
fn deferred_creations_are_realized_in_order() {
    let mut store = EntityStore::new();
    let d0 = store.create_deferred();
    let d1 = store.create_deferred();
    assert_eq!(2, store.deferred_creations());
    assert_eq!(2, store.realize_deferred());
    assert_eq!(0, store.deferred_creations());
    let c0 = store.create();
    let c1 = store.create();
    assert_eq!(d0, c0);
    assert_eq!(d1, c1);
}

#[test]
fn force_alive_past_the_end_keeps_the_free_slots_free() {
    let mut store = EntityStore::new();
    let a = store.create();
    store.destroy(a);
    assert!(store.can_force_alive(EntityId(3)));
    assert!(!store.can_force_alive(EntityId(u32::MAX)));
    match store.force_alive(EntityId(3)) {
        ForceAliveResult::MadeAlive(e) => {
            assert_eq!(e, Entity { generation: EntityGeneration(3), id: EntityId(3) });
        }
        ForceAliveResult::WasAliveBefore(_) => panic!("slot 3 was not alive"),
    }
    let mut ids: Vec<u32> = (0..3).map(|_| store.create().id.0).collect();
    ids.sort();
    assert_eq!(ids, vec![0, 1, 2]);
    assert_eq!(store.create().id, EntityId(4));
}
