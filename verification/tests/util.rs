use froql::util::short_name_of;

#[test]
fn short_names_of_type_names() {
    assert_eq!(short_name_of("u32"), "u32");
    assert_eq!(short_name_of("alloc::vec::Vec<u32>"), "alloc::vec::Vec<u32>");
    assert_eq!(short_name_of("froql::util::test::short_type_name_test::Blab"), "Blab");
    assert_eq!(
        short_name_of("alloc::vec::Vec<froql::util::test::short_type_name_test::Blab>"),
        "alloc::vec::Vec<froql::util::test::short_type_name_test::Blab>"
    );
}

#[test]
fn short_names_follow_the_separators_from_the_left() {
    assert_eq!(short_name_of(""), "");
    assert_eq!(short_name_of("a::"), "");
    assert_eq!(short_name_of("a:::b"), ":b");
    assert_eq!(short_name_of("::b"), "b");
    assert_eq!(short_name_of("a:b"), "a:b");
}
