use wit_scheduler::persist::{
    bytes_from_encoded, load_table, table_bytes, table_from_decoded, TableFileError,
};
use wit_scheduler::quota::QuotaState;
use wit_scheduler::scheduler::{Action, Outcome, Scheduler};
use wit_scheduler::table::WITTable;

fn pairs(entries: &[(&str, u8)]) -> Vec<(String, u8)> {
    entries.iter().map(|(k, c)| (k.to_string(), *c)).collect()
}

fn load(text: &str) -> WITTable {
    let (table, problem) = load_table(text.as_bytes());
    assert!(problem.is_none());
    table
}

#[test]
fn table_is_read_from_a_json_object() {
    let t = load("{\"b/2.png\": 1, \"a.jpg\": 0, \"c\": 4}");
    assert_eq!(t.entries(), pairs(&[("a.jpg", 0), ("b/2.png", 1), ("c", 4)]));
    assert!(load("{}").is_empty());
}

#[test]
fn last_entry_of_a_repeated_key_is_read() {
    let t = load("{\"a\": 1, \"a\": 2}");
    assert_eq!(t.entries(), pairs(&[("a", 2)]));
}

#[test]
fn corrupt_file_gives_the_empty_table_and_an_error() {
    for text in ["", "{", "[]", "{\"a\": 256}", "{\"a\": -1}", "{\"a\": \"1\"}", "{\"a\": 1} x", "null"] {
        let (table, problem) = load_table(text.as_bytes());
        assert!(table.is_empty(), "{:?}", text);
        assert!(matches!(problem, Some(TableFileError::Corrupt(_))), "{:?}", text);
    }
}

#[test]
fn corrupt_file_is_not_read_in_part() {
    let (table, problem) = load_table(b"{\"a\": 1, \"b\": 2, \"c\": 300}");
    assert!(table.is_empty());
    assert!(problem.is_some());
}

#[test]
fn decoded_entries_become_the_table() {
    let (table, problem) = table_from_decoded(Ok(pairs(&[("b", 1), ("a", 2)])));
    assert!(problem.is_none());
    assert_eq!(table.entries(), pairs(&[("a", 2), ("b", 1)]));
    let error = serde_json::from_str::<u8>("x").unwrap_err();
    let text = error.to_string();
    let (table, problem) = table_from_decoded(Err(error));
    assert!(table.is_empty());
    match problem {
        Some(TableFileError::Corrupt(said)) => assert_eq!(said, text),
        other => panic!("{:?}", other),
    }
}

#[test]
fn encoded_bytes_are_handed_on() {
    assert_eq!(bytes_from_encoded(Ok(vec![1, 2, 3])).unwrap(), vec![1, 2, 3]);
    let error = serde_json::from_str::<u8>("x").unwrap_err();
    assert!(matches!(bytes_from_encoded(Err(error)), Err(TableFileError::Unwritable(_))));
}

#[test]
fn table_is_written_as_a_json_object_in_key_order() {
    let t = WITTable::new(pairs(&[("b", 1), ("a\"x", 0)]));
    let bytes = table_bytes(&t).unwrap();
    assert_eq!(String::from_utf8(bytes).unwrap(), "{\"a\\\"x\":0,\"b\":1}");
    assert_eq!(String::from_utf8(table_bytes(&WITTable::default()).unwrap()).unwrap(), "{}");
}

#[test]
fn written_table_is_read_back() {
    let t = WITTable::new(pairs(&[("x/é.png", 3), ("", 0), ("z", 255), ("a b", 1)]));
    let bytes = table_bytes(&t).unwrap();
    let (back, problem) = load_table(&bytes);
    assert!(problem.is_none());
    assert_eq!(back.entries(), t.entries());
}

#[test]
fn crash_before_the_next_flush_loses_nothing() {
    let flushed = table_bytes(&load("{\"a\":0,\"b\":0,\"c\":0}")).unwrap();
    let (table, _) = load_table(&flushed);
    let mut s = Scheduler::new(table, 25, 3);
    match s.next() {
        Action::Annotate(key) => assert_eq!(key, "a"),
        Action::Drain => panic!("the epoch ended"),
    }
    let answer = QuotaState { short_limit: 4, short_remaining: 3, long_limit: 100, long_remaining: 90 };
    let due = s.complete(Outcome::Tagged(answer));
    assert!(!due);
    // the process dies here: what was flushed last is all there is
    drop(s);
    let (reloaded, problem) = load_table(&flushed);
    assert!(problem.is_none());
    assert_eq!(reloaded.entries(), pairs(&[("a", 0), ("b", 0), ("c", 0)]));
}

#[test]
fn flush_while_an_entry_is_in_flight_keeps_the_entry() {
    let mut s = Scheduler::new(load("{\"a\":0,\"b\":0,\"c\":0}"), 25, 3);
    assert!(matches!(s.next(), Action::Annotate(_)));
    let bytes = table_bytes(&s.snapshot()).unwrap();
    assert_eq!(String::from_utf8(bytes).unwrap(), "{\"a\":0,\"b\":0,\"c\":0}");
}

#[test]
fn one_call_epoch_is_flushed_with_the_new_priority() {
    let mut s = Scheduler::new(load("{\"x\":0,\"y\":1}"), 25, 3);
    assert!(matches!(s.next(), Action::Annotate(_)));
    let answer = QuotaState { short_limit: 4, short_remaining: 3, long_limit: 100, long_remaining: 25 };
    s.complete(Outcome::Tagged(answer));
    assert!(matches!(s.next(), Action::Drain));
    let bytes = table_bytes(&s.drain()).unwrap();
    assert_eq!(String::from_utf8(bytes).unwrap(), "{\"x\":1,\"y\":1}");
}
