use froql::relation_vec::RelationVec;

#[test]
fn relation_vec_inline_vec() {
    let mut vec = RelationVec::new();
    assert_eq!(0, vec.len());
    vec.push(10);
    vec.push(20);
    vec.push(30);
    assert_eq!(3, vec.len());
    assert_eq!(&[10, 20, 30], &vec.to_vec()[..]);
    vec.remove(20);
    vec.remove(42);
    assert_eq!(&[10, 30], &vec.to_vec()[..]);
    assert_eq!(2, vec.len());
    vec.remove(10);
    vec.remove(30);
    vec.remove(42);
    let arr: &[u32] = &[];
    assert_eq!(arr, &vec.to_vec()[..]);
    assert_eq!(0, vec.len());
}

#[test]
fn outline_vec() {
    let mut vec = RelationVec::new();
    assert_eq!(0, vec.len());
    vec.push(10);
    vec.push(20);
    vec.push(30);
    vec.push(40);
    vec.push(50);
    assert_eq!(5, vec.len());
    assert_eq!(&[10, 20, 30, 40, 50], &vec.to_vec()[..]);
    vec.remove(20);
    vec.remove(30);
    assert_eq!(&[10, 50, 40], &vec.to_vec()[..]);
}

#[test]
fn grow() {
    let mut vec = RelationVec::new();
    for i in 0..20 {
        vec.push(i * 100);
    }
    assert_eq!(20, vec.len());
}

#[test]
fn remove_takes_first_occurrence_and_moves_last_in() {
    let mut vec = RelationVec::new();
    for x in [1, 2, 1, 3] {
        vec.push(x);
    }
    vec.remove(1);
    assert_eq!(&[3, 2, 1], &vec.to_vec()[..]);
    assert!(vec.contains(1));
    assert_eq!(Some(2), vec.position(1));
    assert_eq!(None, vec.position(9));
    vec.set(0, 7);
    assert_eq!(7, vec.get(0));
    assert!(!vec.is_empty());
}

#[test]
fn shrinking_back_to_inline_keeps_order() {
    let mut vec = RelationVec::new();
    for x in [1, 2, 3, 4] {
        vec.push(x);
    }
    vec.remove(2);
    assert_eq!(&[1, 4, 3], &vec.to_vec()[..]);
    vec.push(5);
    vec.push(6);
    assert_eq!(&[1, 4, 3, 5, 6], &vec.to_vec()[..]);
}
