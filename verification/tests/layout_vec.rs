use froql::layout_vec::LayoutVec;

#[derive(Debug, PartialEq)]
struct MyStruct(usize);

#[test]
fn push_and_get() {
    let mut vec = LayoutVec::new();
    for i in 0..10 {
        vec.push(MyStruct(i * 10));
    }
    assert_eq!(50, vec.get(5).0);
    assert_eq!(0, vec.get(0).0);
    assert_eq!(90, vec.get(9).0);
}

#[test]
fn test_remove_swap() {
    let mut vec = LayoutVec::new();
    for i in 0..10 {
        vec.push(MyStruct(i * 10));
    }
    let old_index = vec.remove_swap(5);
    assert_eq!(9, old_index);
    assert_eq!(90, vec.get(5).0);
}

#[test]
fn take_replace_and_move() {
    let mut a = LayoutVec::new();
    let mut b = LayoutVec::new();
    for i in 0..4 {
        a.push(MyStruct(i));
    }
    assert_eq!(MyStruct(1), a.take_swap(1));
    assert_eq!(MyStruct(3), *a.get(1));
    assert_eq!(MyStruct(0), a.replace(0, MyStruct(10)));
    LayoutVec::move_entry(&mut a, &mut b, 0);
    assert_eq!(2, a.len());
    assert_eq!(MyStruct(10), *b.get(0));
    assert_eq!(MyStruct(3), a.remove_last());
    assert_eq!(1, a.len());
}
