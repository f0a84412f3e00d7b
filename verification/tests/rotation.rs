use wit_scheduler::rotation::MAX_PRIORITY;
use wit_scheduler::table::WITTable;

fn table_of(entries: &[(&str, u8)]) -> WITTable {
    WITTable::new(entries.iter().map(|(k, c)| (k.to_string(), *c)).collect())
}

fn pairs(entries: &[(&str, u8)]) -> Vec<(String, u8)> {
    entries.iter().map(|(k, c)| (k.to_string(), *c)).collect()
}

fn rotate(t: &mut WITTable) -> String {
    let (key, cnt) = t.pop().unwrap();
    let next = t.advance(cnt);
    t.push(&key, next);
    key
}

#[test]
fn advance_counts_up_below_the_bound() {
    assert_eq!(MAX_PRIORITY, 4);
    let mut t = table_of(&[("a", 1), ("b", 3)]);
    assert_eq!(t.advance(0), 1);
    assert_eq!(t.advance(3), 4);
    assert_eq!(t.entries(), pairs(&[("a", 1), ("b", 3)]));
}

#[test]
fn advance_at_the_bound_moves_the_waiting_down() {
    let mut t = table_of(&[("a", 4), ("b", 5)]);
    assert_eq!(t.advance(4), 4);
    assert_eq!(t.entries(), pairs(&[("a", 3), ("b", 4)]));
}

#[test]
fn merge_prefers_the_entries_merged_in() {
    let mut t = table_of(&[("a", 1), ("b", 2)]);
    t.merge(&table_of(&[("b", 3), ("c", 4)]));
    assert_eq!(t.entries(), pairs(&[("a", 1), ("b", 3), ("c", 4)]));
}

#[test]
fn covered_counts_the_handled_images() {
    assert_eq!(table_of(&[("a", 0), ("b", 2), ("c", 0), ("d", 1)]).covered(), 2);
    assert_eq!(WITTable::default().covered(), 0);
}

#[test]
fn every_key_comes_up_within_the_bound() {
    let start = [("a", 4u8), ("b", 0), ("c", 2), ("d", 4), ("e", 1)];
    let bound = (start.len() - 1) * (MAX_PRIORITY as usize + 1);
    for (key, _) in start {
        let mut t = table_of(&start);
        let mut rotations = 0;
        while rotate(&mut t) != key {
            rotations += 1;
            assert!(rotations <= bound);
        }
    }
}

#[test]
fn rotation_keeps_the_priorities_within_the_bound() {
    let mut t = table_of(&[("a", 0), ("b", 0), ("c", 0)]);
    let mut order = Vec::new();
    for _ in 0..18 {
        order.push(rotate(&mut t));
        assert!(t.entries().iter().all(|e| e.1 <= MAX_PRIORITY));
        assert_eq!(t.len(), 3);
    }
    assert_eq!(order.concat(), "abcabcabcabcabcabc");
}
