use froql::component::{
    ComponentId, CASCADING_DESTRUCT, EXCLUSIVE, RELATION, SYMMETRIC, TRANSITIVE,
};

#[test]
fn component_bitmasking() {
    let ci = ComponentId::new(32);
    assert_eq!(32, ci.as_index());
    assert!(!ci.is_relation());
    assert_eq!(32, ci.id());
    let ci = ComponentId::new(32).set_relation();
    assert_eq!(32, ci.as_index());
    assert_eq!(32, ci.id());
    assert!(ci.is_relation());
    let ci = ComponentId::new(32).set_relation().flip_target();
    assert_eq!(32, ci.as_index());
    assert!(ci.is_relation());
    assert!(ci.is_target());
}

#[test]
fn flags_are_set_and_read() {
    let ci = ComponentId::new(7).set_flags(RELATION | EXCLUSIVE | TRANSITIVE);
    assert_eq!(7, ci.id());
    assert!(ci.is_relation());
    assert!(ci.is_exclusive());
    assert!(ci.is_transitive());
    assert!(!ci.is_symmetric());
    assert!(!ci.is_cascading());
    assert_eq!(RELATION | EXCLUSIVE | TRANSITIVE | 7, ci.raw());
    // the target side is not exclusive
    assert!(!ci.flip_target().is_exclusive());
    assert!(ci.flip_target().flip_target() == ci);
    let s = ComponentId::new(3).set_flags(RELATION | SYMMETRIC);
    assert!(s.flip_target() == s);
    let c = ComponentId::new(3).set_relation().set_cascading();
    assert!(c.is_cascading());
    assert!(!c.flip_target().is_cascading());
    assert_eq!(CASCADING_DESTRUCT, c.raw() & CASCADING_DESTRUCT);
}

#[test]
fn toggles_flip_flags_back_and_forth() {
    let ci = ComponentId::new(1).set_relation();
    assert!(ci.set_exclusive().is_exclusive());
    assert!(!ci.set_exclusive().set_exclusive().is_exclusive());
    assert!(ci.set_symmetric().is_symmetric());
    assert!(ci.set_transitive().is_transitive());
    assert_eq!(5, ComponentId::from_usize(5).as_index());
}

#[test]
fn only_the_origin_side_reports_symmetric() {
    let origin = ComponentId::new(1).set_flags(RELATION | SYMMETRIC);
    assert!(origin.is_symmetric());
    let target = ComponentId::new(1).set_flags(RELATION | 0x4000_0000 | SYMMETRIC);
    assert!(target.is_target());
    assert!(!target.is_symmetric());
}
