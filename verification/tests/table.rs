use wit_scheduler::table::WITTable;

fn table_of(entries: &[(&str, u8)]) -> WITTable {
    WITTable::new(entries.iter().map(|(k, c)| (k.to_string(), *c)).collect())
}

#[test]
fn new_keeps_the_last_entry_of_a_key() {
    let t = table_of(&[("b", 1), ("a", 2), ("b", 3)]);
    assert_eq!(t.len(), 2);
    assert_eq!(t.get("a"), Some(2));
    assert_eq!(t.get("b"), Some(3));
    assert_eq!(t.entries(), vec![("a".to_string(), 2), ("b".to_string(), 3)]);
}

#[test]
fn pop_returns_none_only_when_empty() {
    let mut t = WITTable::default();
    assert!(t.is_empty());
    assert_eq!(t.pop(), None);
    t.push("x", 0);
    assert!(!t.is_empty());
    assert_eq!(t.pop(), Some(("x".to_string(), 0)));
    assert_eq!(t.pop(), None);
}

#[test]
fn pop_takes_the_least_priority_and_then_the_first_key() {
    let mut t = table_of(&[("d", 2), ("c", 1), ("b", 1), ("a", 3)]);
    assert_eq!(t.pop(), Some(("b".to_string(), 1)));
    assert_eq!(t.pop(), Some(("c".to_string(), 1)));
    assert_eq!(t.pop(), Some(("d".to_string(), 2)));
    assert_eq!(t.pop(), Some(("a".to_string(), 3)));
    assert_eq!(t.pop(), None);
}

#[test]
fn pop_handles_the_greatest_priority() {
    let mut t = table_of(&[("b", 255), ("a", 255)]);
    assert_eq!(t.pop(), Some(("a".to_string(), 255)));
    assert_eq!(t.pop(), Some(("b".to_string(), 255)));
}

#[test]
fn push_replaces_and_insert_if_absent_does_not() {
    let mut t = WITTable::default();
    t.push("a", 1);
    t.push("a", 2);
    assert_eq!(t.len(), 1);
    assert_eq!(t.get("a"), Some(2));
    assert!(!t.insert_if_absent("a", 0));
    assert_eq!(t.get("a"), Some(2));
    assert!(t.insert_if_absent("b", 0));
    assert_eq!(t.get("b"), Some(0));
    assert!(t.contains("b"));
    assert!(!t.contains("c"));
}

#[test]
fn decrease_all_cnt_lowers_every_priority() {
    let mut t = table_of(&[("a", 1), ("b", 4), ("c", 2)]);
    t.decrease_all_cnt();
    assert_eq!(
        t.entries(),
        vec![("a".to_string(), 0), ("b".to_string(), 3), ("c".to_string(), 1)]
    );
}

#[test]
fn keys_are_kept_in_code_point_order() {
    let t = table_of(&[("b", 0), ("B", 0), ("é", 0), ("ab", 0), ("a", 0), ("", 0)]);
    let keys: Vec<String> = t.entries().into_iter().map(|e| e.0).collect();
    assert_eq!(keys, vec!["", "B", "a", "ab", "b", "é"]);
}
