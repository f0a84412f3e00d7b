use wit_scheduler::quota::QuotaState;
use wit_scheduler::scheduler::{Action, AnnotationError, Outcome, Scheduler};
use wit_scheduler::table::WITTable;

fn table_of(entries: &[(&str, u8)]) -> WITTable {
    WITTable::new(entries.iter().map(|(k, c)| (k.to_string(), *c)).collect())
}

fn listing(t: &WITTable) -> Vec<(String, u8)> {
    t.entries()
}

fn pairs(entries: &[(&str, u8)]) -> Vec<(String, u8)> {
    entries.iter().map(|(k, c)| (k.to_string(), *c)).collect()
}

fn answer(long_limit: u32, long_remaining: u32) -> QuotaState {
    QuotaState { short_limit: 4, short_remaining: 3, long_limit, long_remaining }
}

fn annotate(s: &mut Scheduler) -> String {
    match s.next() {
        Action::Annotate(key) => key,
        Action::Drain => panic!("the epoch ended"),
    }
}

fn drains(s: &mut Scheduler) -> bool {
    matches!(s.next(), Action::Drain)
}

#[test]
fn one_call_epoch_requeues_the_first_entry() {
    let mut s = Scheduler::new(table_of(&[("x", 0), ("y", 1)]), 25, 3);
    assert_eq!(s.quota(), 2);
    assert_eq!(annotate(&mut s), "x");
    // the reserve of 25 calls leaves nothing of the 25 that remain
    s.complete(Outcome::Tagged(answer(100, 25)));
    assert!(s.quota() <= 0);
    assert!(drains(&mut s));
    assert_eq!(listing(&s.drain()), pairs(&[("x", 1), ("y", 1)]));
}

#[test]
fn epoch_is_bounded_by_the_table() {
    let mut s = Scheduler::new(table_of(&[("a", 0), ("b", 0), ("c", 2)]), 25, 100);
    assert_eq!(annotate(&mut s), "a");
    s.complete(Outcome::Tagged(answer(100, 90)));
    assert_eq!(s.quota(), 65);
    assert_eq!(annotate(&mut s), "b");
    s.complete(Outcome::Tagged(answer(100, 89)));
    assert_eq!(annotate(&mut s), "c");
    s.complete(Outcome::Tagged(answer(100, 88)));
    assert_eq!(s.quota(), 63);
    assert!(drains(&mut s));
    assert_eq!(listing(&s.drain()), pairs(&[("a", 1), ("b", 1), ("c", 3)]));
}

#[test]
fn empty_table_drains_at_once() {
    let mut s = Scheduler::new(WITTable::default(), 25, 1);
    assert_eq!(s.quota(), 0);
    assert!(drains(&mut s));
    assert!(s.drain().is_empty());
}

#[test]
fn entry_in_flight_is_handed_out_again() {
    let mut s = Scheduler::new(table_of(&[("a", 0), ("b", 0)]), 25, 1);
    assert_eq!(annotate(&mut s), "a");
    assert_eq!(annotate(&mut s), "a");
    s.complete(Outcome::Tagged(answer(100, 90)));
    assert_eq!(annotate(&mut s), "b");
}

#[test]
fn complete_without_an_entry_in_flight_changes_nothing() {
    let mut s = Scheduler::new(table_of(&[("a", 0)]), 25, 1);
    assert!(!s.complete(Outcome::Tagged(answer(100, 0))));
    assert_eq!(s.quota(), 1);
    assert_eq!(listing(&s.snapshot()), pairs(&[("a", 0)]));
}

#[test]
fn missing_file_is_dropped() {
    let mut s = Scheduler::new(table_of(&[("a", 0), ("b", 1)]), 25, 1);
    assert_eq!(annotate(&mut s), "a");
    assert!(!s.complete(Outcome::Failed(AnnotationError::NotFound)));
    assert_eq!(s.quota(), 2);
    assert_eq!(listing(&s.snapshot()), pairs(&[("b", 1)]));
    assert_eq!(annotate(&mut s), "b");
}

#[test]
fn refused_call_ends_the_epoch_and_keeps_the_priority() {
    let mut s = Scheduler::new(table_of(&[("a", 2), ("b", 3)]), 25, 5);
    assert_eq!(annotate(&mut s), "a");
    s.complete(Outcome::Failed(AnnotationError::RateLimited));
    assert_eq!(s.quota(), 0);
    assert!(drains(&mut s));
    assert_eq!(listing(&s.drain()), pairs(&[("a", 2), ("b", 3)]));
}

#[test]
fn unreachable_service_ends_the_epoch_and_keeps_the_priority() {
    let mut s = Scheduler::new(table_of(&[("a", 2), ("b", 3)]), 25, 5);
    assert_eq!(annotate(&mut s), "a");
    s.complete(Outcome::Failed(AnnotationError::NetworkError));
    assert_eq!(s.quota(), 0);
    assert!(drains(&mut s));
    assert_eq!(listing(&s.drain()), pairs(&[("a", 2), ("b", 3)]));
}

#[test]
fn unreadable_answer_before_any_answer_ends_the_epoch() {
    let mut s = Scheduler::new(table_of(&[("a", 2), ("b", 3)]), 25, 5);
    assert_eq!(annotate(&mut s), "a");
    s.complete(Outcome::Failed(AnnotationError::InvalidResponse));
    assert_eq!(s.quota(), 0);
    assert!(drains(&mut s));
    assert_eq!(listing(&s.drain()), pairs(&[("a", 2), ("b", 3)]));
}

#[test]
fn unreadable_answer_after_an_answer_keeps_the_quota() {
    let mut s = Scheduler::new(table_of(&[("a", 0), ("b", 0), ("c", 0)]), 25, 5);
    assert_eq!(annotate(&mut s), "a");
    s.complete(Outcome::Tagged(answer(100, 90)));
    assert_eq!(s.quota(), 65);
    assert_eq!(annotate(&mut s), "b");
    s.complete(Outcome::Failed(AnnotationError::InvalidResponse));
    assert_eq!(s.quota(), 65);
    assert_eq!(annotate(&mut s), "c");
    s.complete(Outcome::Tagged(answer(100, 89)));
    assert_eq!(listing(&s.drain()), pairs(&[("a", 1), ("b", 0), ("c", 1)]));
}

#[test]
fn saturated_entry_stays_and_the_waiting_make_room() {
    let mut s = Scheduler::new(table_of(&[("a", 4), ("b", 4), ("c", 4)]), 0, 5);
    assert_eq!(annotate(&mut s), "a");
    s.complete(Outcome::Tagged(answer(100, 90)));
    assert_eq!(listing(&s.snapshot()), pairs(&[("a", 4), ("b", 3), ("c", 3)]));
    assert_eq!(annotate(&mut s), "b");
    s.complete(Outcome::Tagged(answer(100, 89)));
    assert_eq!(annotate(&mut s), "c");
    s.complete(Outcome::Tagged(answer(100, 88)));
    assert_eq!(listing(&s.drain()), pairs(&[("a", 4), ("b", 4), ("c", 4)]));
}

#[test]
fn flush_is_due_every_n_requeued_entries() {
    let mut s = Scheduler::new(table_of(&[("a", 0), ("b", 0), ("c", 0), ("d", 0), ("e", 0)]), 0, 2);
    annotate(&mut s);
    assert!(!s.complete(Outcome::Tagged(answer(100, 90))));
    annotate(&mut s);
    assert!(s.complete(Outcome::Tagged(answer(100, 89))));
    annotate(&mut s);
    // a dropped entry is not counted
    assert!(!s.complete(Outcome::Failed(AnnotationError::NotFound)));
    annotate(&mut s);
    assert!(!s.complete(Outcome::Tagged(answer(100, 88))));
    annotate(&mut s);
    // an entry that is queued again after a failure is counted
    assert!(s.complete(Outcome::Failed(AnnotationError::InvalidResponse)));
}

#[test]
fn snapshot_holds_the_entry_in_flight_as_it_was() {
    let mut s = Scheduler::new(table_of(&[("a", 0), ("b", 0), ("c", 0)]), 25, 1);
    assert_eq!(annotate(&mut s), "a");
    assert_eq!(listing(&s.snapshot()), pairs(&[("a", 0), ("b", 0), ("c", 0)]));
    s.complete(Outcome::Tagged(answer(100, 90)));
    assert_eq!(listing(&s.snapshot()), pairs(&[("a", 1), ("b", 0), ("c", 0)]));
    assert_eq!(annotate(&mut s), "b");
    assert_eq!(listing(&s.snapshot()), pairs(&[("a", 1), ("b", 0), ("c", 0)]));
}

#[test]
fn no_key_is_lost_or_doubled_without_a_missing_file() {
    let outcomes = [
        Outcome::Tagged(answer(100, 90)),
        Outcome::Failed(AnnotationError::InvalidResponse),
        Outcome::Tagged(answer(100, 89)),
        Outcome::Failed(AnnotationError::NetworkError),
    ];
    let mut s = Scheduler::new(table_of(&[("a", 0), ("b", 1), ("c", 0), ("d", 4), ("e", 2)]), 25, 2);
    let keys = |s: &Scheduler| -> Vec<String> {
        s.snapshot().entries().into_iter().map(|e| e.0).collect()
    };
    let all = keys(&s);
    for outcome in outcomes {
        if let Action::Annotate(_) = s.next() {
            assert_eq!(keys(&s), all);
            s.complete(outcome);
            assert_eq!(keys(&s), all);
        }
    }
    assert_eq!(keys(&s), all);
    let merged: Vec<String> = s.drain().entries().into_iter().map(|e| e.0).collect();
    assert_eq!(merged, all);
}

#[test]
fn low_confidence_counts_like_an_answer() {
    let mut s = Scheduler::new(table_of(&[("a", 0), ("b", 0)]), 25, 5);
    assert_eq!(annotate(&mut s), "a");
    s.complete(Outcome::LowConfidence(answer(100, 90)));
    assert_eq!(s.quota(), 65);
    assert_eq!(listing(&s.snapshot()), pairs(&[("a", 1), ("b", 0)]));
    assert_eq!(annotate(&mut s), "b");
    s.complete(Outcome::LowConfidence(answer(100, 25)));
    assert_eq!(s.quota(), 0);
    assert!(drains(&mut s));
}

#[test]
fn quota_falls_with_each_answer_that_reports_less() {
    let mut s = Scheduler::new(table_of(&[("a", 0), ("b", 0), ("c", 0)]), 25, 5);
    let mut last = i64::MAX;
    for remaining in [90, 89, 80] {
        annotate(&mut s);
        s.complete(Outcome::Tagged(answer(100, remaining)));
        assert!(s.quota() < last);
        last = s.quota();
    }
}

#[test]
fn every_key_is_handed_out_within_the_bound_over_the_epochs() {
    let start = [("a", 4u8), ("b", 0), ("c", 2), ("d", 4), ("e", 1), ("f", 3)];
    let bound = start.len() * 6;
    // the epochs are cut short after one, two, three, ... answers in turn
    for (wanted, _) in start {
        let mut table = table_of(&start);
        let mut answers = 0;
        let mut cut = 1;
        let mut seen = false;
        while !seen {
            let mut s = Scheduler::new(table, 0, 100);
            for _ in 0..cut {
                match s.next() {
                    Action::Annotate(key) => {
                        if key == wanted {
                            seen = true;
                            break;
                        }
                        answers += 1;
                        assert!(answers <= bound);
                        s.complete(Outcome::Tagged(answer(100, 90)));
                    }
                    Action::Drain => break,
                }
            }
            table = s.drain();
            cut = cut % 4 + 1;
        }
    }
}

#[test]
fn epoch_hands_out_each_entry_once() {
    let mut s = Scheduler::new(table_of(&[("a", 1), ("b", 0), ("c", 1), ("d", 0)]), 0, 100);
    let mut order = Vec::new();
    while let Action::Annotate(key) = s.next() {
        order.push(key);
        s.complete(Outcome::Tagged(answer(1000, 900)));
    }
    assert_eq!(order, vec!["b", "d", "a", "c"]);
    assert_eq!(listing(&s.drain()), pairs(&[("a", 2), ("b", 1), ("c", 2), ("d", 1)]));
}
