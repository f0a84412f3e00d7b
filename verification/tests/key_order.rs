use wit_scheduler::key_order::str_equal;

#[test]
fn equal_strings_are_told_from_others() {
    assert!(str_equal("", ""));
    assert!(str_equal("a/b.png", "a/b.png"));
    assert!(str_equal("é", "é"));
    assert!(!str_equal("a", "b"));
    assert!(!str_equal("a", "ab"));
    assert!(!str_equal("ab", "a"));
    assert!(!str_equal("a", "A"));
    assert!(!str_equal("", " "));
}
