//! One epoch of tagging: which image is handed out next, what becomes of it
//! once the annotation service has answered, and when the epoch is over.
//!
//! The scheduler makes no call itself. Its owner asks it for the next action,
//! performs the action and reports the outcome.

use vstd::prelude::*;
use crate::listing::is_first;
use crate::quota::QuotaState;
use crate::rotation::{make_room, next_priority, MAX_PRIORITY};
use crate::table::WITTable;

verus! {

/// Why an image could not be annotated.
#[derive(Clone, Copy, Debug, PartialEq, Eq, Structural)]
pub enum AnnotationError {
    /// The image file is gone.
    NotFound,
    /// The service refused the call because a rate limit is used up.
    RateLimited,
    /// The service answered with something that could not be read.
    InvalidResponse,
    /// The service could not be reached.
    NetworkError,
}

/// How the annotation of an image ended.
#[derive(Clone, Copy, Debug, PartialEq, Eq, Structural)]
pub enum Outcome {
    /// The service found the image; the tags it reported have been merged.
    Tagged(QuotaState),
    /// The service answered, but its best match is too unlike the image to
    /// take tags from. The call counts like any other that was answered.
    LowConfidence(QuotaState),
    /// The image could not be annotated.
    Failed(AnnotationError),
}

/// Whether the image turned out to be gone.
pub open spec fn gone(outcome: Outcome) -> bool {
    outcome == Outcome::Failed(AnnotationError::NotFound)
}

/// What the owner of the scheduler has to do next.
#[derive(Debug)]
pub enum Action {
    /// Annotate the image with this key and report the outcome.
    Annotate(String),
    /// The epoch is over: persist the merged table and rest.
    Drain,
}

/// The state of an epoch, as the contracts speak of it.
pub struct EpochState {
    /// The entries that wait to be handed out in this epoch.
    pub waiting: Map<Seq<char>, u8>,
    /// The entries that were handed out in this epoch and queued again; they
    /// are held back until the epoch is over.
    pub requeued: Map<Seq<char>, u8>,
    /// The entry that was handed out and whose outcome is not yet known.
    pub in_flight: Option<(Seq<char>, u8)>,
    /// The calls that the epoch may still make.
    pub quota: int,
    /// Whether `quota` comes from an answer of the service in this epoch.
    pub quota_known: bool,
    /// The hundredths of the long limit that are kept back.
    pub preserve_quota_percent: u8,
    /// After how many queued-again entries the table is to be persisted.
    pub flush_every_n_items: nat,
}

/// Whether the entry in flight has the key `k`.
pub open spec fn flying(s: EpochState, k: Seq<char>) -> bool {
    s.in_flight matches Some(e) && e.0 == k
}

/// How often the key `k` occurs in the state: among the waiting entries, among
/// those queued again, and as the entry in flight.
pub open spec fn key_count(s: EpochState, k: Seq<char>) -> nat {
    (if s.waiting.contains_key(k) {
        1nat
    } else {
        0nat
    }) + (if s.requeued.contains_key(k) {
        1nat
    } else {
        0nat
    }) + (if flying(s, k) {
        1nat
    } else {
        0nat
    })
}

/// What holds of every state of an epoch: no key occurs twice, and no waiting
/// entry has a smaller priority than the entry in flight.
pub open spec fn inv(s: EpochState) -> bool {
    &&& forall|k: Seq<char>| #[trigger] key_count(s, k) <= 1
    &&& s.in_flight matches Some(e) ==> forall|k: Seq<char>| #[trigger]
        s.waiting.contains_key(k) ==> s.waiting[k] >= e.1
    &&& s.flush_every_n_items >= 1
}

/// The whole table as it is to be persisted in this state: the waiting
/// entries, those queued again, and the entry in flight with the priority at
/// which it was handed out.
pub open spec fn snapshot_of(s: EpochState) -> Map<Seq<char>, u8> {
    let merged = s.waiting.union_prefer_right(s.requeued);
    match s.in_flight {
        Some(e) => merged.insert(e.0, e.1),
        None => merged,
    }
}

/// The state in which an epoch on `table` begins. Until the service has
/// answered, the epoch may make as many calls as the table has entries.
pub open spec fn start_of(
    table: Map<Seq<char>, u8>,
    preserve_quota_percent: u8,
    flush_every_n_items: nat,
) -> EpochState {
    EpochState {
        waiting: table,
        requeued: Map::empty(),
        in_flight: None,
        quota: if table.dom().len() <= i64::MAX {
            table.dom().len() as int
        } else {
            i64::MAX as int
        },
        quota_known: false,
        preserve_quota_percent,
        flush_every_n_items,
    }
}

/// Whether the epoch goes on in the state `s`: it may still make a call and an
/// entry is waiting.
pub open spec fn continues(s: EpochState) -> bool {
    s.quota > 0 && s.waiting.dom().len() > 0
}

/// The state after the entry with key `k` has been handed out.
pub open spec fn handed_out(s: EpochState, k: Seq<char>) -> EpochState {
    EpochState { waiting: s.waiting.remove(k), in_flight: Some((k, s.waiting[k])), ..s }
}

/// The state after the outcome of the entry in flight is known.
///
/// An image for which the service answered, with tags or with too unlike a
/// match, is queued again with its next priority, and the quota is taken from
/// the answer. An image that is gone is dropped. After any other failure the
/// image is queued again as it was; a refused call or an unreachable service
/// ends the epoch, while an unreadable answer leaves the quota of the last
/// answer, or none if there was no answer yet.
pub open spec fn completed(s: EpochState, outcome: Outcome) -> EpochState {
    match s.in_flight {
        None => s,
        Some(e) => match outcome {
            Outcome::Tagged(q) | Outcome::LowConfidence(q) => EpochState {
                waiting: make_room(s.waiting, e.1),
                requeued: s.requeued.insert(e.0, next_priority(e.1)),
                in_flight: None,
                quota: q.available(s.preserve_quota_percent as int),
                quota_known: true,
                ..s
            },
            Outcome::Failed(AnnotationError::NotFound) => EpochState { in_flight: None, ..s },
            Outcome::Failed(AnnotationError::InvalidResponse) => EpochState {
                requeued: s.requeued.insert(e.0, e.1),
                in_flight: None,
                quota: if s.quota_known {
                    s.quota
                } else {
                    0
                },
                ..s
            },
            Outcome::Failed(_) => EpochState {
                requeued: s.requeued.insert(e.0, e.1),
                in_flight: None,
                quota: 0,
                ..s
            },
        },
    }
}

/// Whether the table is to be persisted once the outcome is known: an entry
/// was queued again, and the number of entries queued again in this epoch is
/// a multiple of `flush_every_n_items`.
pub open spec fn flush_due(s: EpochState, outcome: Outcome) -> bool {
    &&& s.in_flight is Some
    &&& !gone(outcome)
    &&& s.flush_every_n_items > 0
    &&& completed(s, outcome).requeued.dom().len() % s.flush_every_n_items == 0
}

/// Handing out an entry keeps every key, and keeps it once.
pub proof fn lemma_handed_out_conserves(s: EpochState, k: Seq<char>)
    requires
        inv(s),
        s.in_flight is None,
        is_first(s.waiting, k),
    ensures
        inv(handed_out(s, k)),
        forall|x: Seq<char>| key_count(handed_out(s, k), x) == key_count(s, x),
        snapshot_of(handed_out(s, k)) == snapshot_of(s),
{
    let t = handed_out(s, k);
    assert forall|x: Seq<char>| key_count(t, x) == key_count(s, x) by {}
    assert forall|x: Seq<char>| #[trigger] key_count(t, x) <= 1 by {
        assert(key_count(s, x) <= 1);
    }
    assert(key_count(s, k) <= 1);
    assert(snapshot_of(t) =~= snapshot_of(s));
}

/// Whatever the outcome, no key occurs twice afterwards. Unless the image is
/// gone, every key is kept; an image that is gone leaves, and nothing else.
pub proof fn lemma_completed_conserves(s: EpochState, outcome: Outcome)
    requires
        inv(s),
    ensures
        inv(completed(s, outcome)),
        !gone(outcome) ==> forall|x: Seq<char>|
            key_count(completed(s, outcome), x) == key_count(s, x),
        gone(outcome) ==> forall|x: Seq<char>|
            key_count(completed(s, outcome), x) == (if flying(s, x) {
                0nat
            } else {
                key_count(s, x)
            }),
{
    let t = completed(s, outcome);
    if s.in_flight is Some {
        let e = s.in_flight->0;
        assert(key_count(s, e.0) <= 1);
        assert forall|x: Seq<char>| #[trigger] key_count(t, x) <= 1 by {
            assert(key_count(s, x) <= 1);
        }
    }
}

/// What is persisted holds exactly the keys of the state, each with the
/// priority that the state has for it.
pub proof fn lemma_snapshot_keys(s: EpochState)
    requires
        inv(s),
    ensures
        forall|k: Seq<char>| #[trigger] snapshot_of(s).contains_key(k) <==> key_count(s, k) == 1,
        forall|k: Seq<char>| #[trigger]
            s.waiting.contains_key(k) ==> snapshot_of(s)[k] == s.waiting[k],
        forall|k: Seq<char>| #[trigger]
            s.requeued.contains_key(k) ==> snapshot_of(s)[k] == s.requeued[k],
        s.in_flight matches Some(e) ==> snapshot_of(s)[e.0] == e.1,
{
    assert forall|k: Seq<char>| #[trigger] snapshot_of(s).contains_key(k) <==> key_count(s, k)
        == 1 by {
        assert(key_count(s, k) <= 1);
    }
    assert forall|k: Seq<char>| #[trigger] s.waiting.contains_key(k) implies snapshot_of(s)[k]
        == s.waiting[k] by {
        assert(key_count(s, k) <= 1);
    }
    assert forall|k: Seq<char>| #[trigger] s.requeued.contains_key(k) implies snapshot_of(s)[k]
        == s.requeued[k] by {
        assert(key_count(s, k) <= 1);
    }
}

/// No priority of the state exceeds `MAX_PRIORITY`.
pub open spec fn bounded_state(s: EpochState) -> bool {
    &&& forall|k: Seq<char>| #[trigger] s.waiting.contains_key(k) ==> s.waiting[k] <= MAX_PRIORITY
    &&& forall|k: Seq<char>| #[trigger]
        s.requeued.contains_key(k) ==> s.requeued[k] <= MAX_PRIORITY
    &&& s.in_flight matches Some(e) ==> e.1 <= MAX_PRIORITY
}

/// Priorities stay within the bound: if none exceeds `MAX_PRIORITY`, none does
/// after an entry was handed out or an outcome was taken.
pub proof fn lemma_priorities_stay_bounded(s: EpochState, k: Seq<char>, outcome: Outcome)
    requires
        inv(s),
        bounded_state(s),
    ensures
        bounded_state(completed(s, outcome)),
        s.in_flight is None && is_first(s.waiting, k) ==> bounded_state(handed_out(s, k)),
{
    let t = completed(s, outcome);
    if s.in_flight is Some {
        let e = s.in_flight->0;
        assert forall|x: Seq<char>| #[trigger] t.waiting.contains_key(x) implies t.waiting[x]
            <= MAX_PRIORITY by {
            assert(s.waiting.contains_key(x));
            assert(e.1 <= s.waiting[x] <= MAX_PRIORITY);
        }
    }
}

/// An epoch hands out no more entries than its table has: each entry that is
/// handed out leaves the waiting entries, and no outcome brings one back.
pub proof fn lemma_epoch_is_one_pass(s: EpochState, k: Seq<char>, outcome: Outcome)
    requires
        inv(s),
        s.waiting.dom().finite(),
    ensures
        completed(s, outcome).waiting.dom() == s.waiting.dom(),
        is_first(s.waiting, k) ==> handed_out(s, k).waiting.dom().len() + 1
            == s.waiting.dom().len(),
{
    assert(completed(s, outcome).waiting.dom() =~= s.waiting.dom());
}

/// With the limit unchanged, an answer that reports fewer remaining calls
/// than the answer before leaves the epoch strictly less quota; once the quota
/// is zero or less, the epoch does not continue.
pub proof fn lemma_quota_falls(
    first: EpochState,
    second: EpochState,
    before: QuotaState,
    after: QuotaState,
)
    requires
        first.in_flight is Some,
        second.in_flight is Some,
        second.preserve_quota_percent == first.preserve_quota_percent,
        after.long_limit == before.long_limit,
        after.long_remaining < before.long_remaining,
    ensures
        completed(second, Outcome::Tagged(after)).quota < completed(
            first,
            Outcome::Tagged(before),
        ).quota,
        completed(second, Outcome::LowConfidence(after)).quota == completed(
            second,
            Outcome::Tagged(after),
        ).quota,
        completed(second, Outcome::Tagged(after)).quota <= 0 ==> !continues(
            completed(second, Outcome::Tagged(after)),
        ),
{
}

/// The scheduler of one epoch.
#[derive(Debug)]
pub struct Scheduler {
    table: WITTable,
    shadow: WITTable,
    in_flight: Option<(String, u8)>,
    quota: i64,
    quota_known: bool,
    preserve_quota_percent: u8,
    flush_every_n_items: usize,
}

impl View for Scheduler {
    type V = EpochState;

    closed spec fn view(&self) -> EpochState {
        EpochState {
            waiting: self.table@,
            requeued: self.shadow@,
            in_flight: match self.in_flight {
                Some(e) => Some((e.0@, e.1)),
                None => None,
            },
            quota: self.quota as int,
            quota_known: self.quota_known,
            preserve_quota_percent: self.preserve_quota_percent,
            flush_every_n_items: self.flush_every_n_items as nat,
        }
    }
}

impl Scheduler {
    /// The scheduler is well formed: its tables are, and its state satisfies
    /// `inv`.
    pub closed spec fn wf(&self) -> bool {
        &&& self.table.wf()
        &&& self.shadow.wf()
        &&& inv(self@)
    }

    /// The state of a well-formed scheduler satisfies `inv`.
    pub proof fn lemma_wf_inv(self)
        requires
            self.wf(),
        ensures
            inv(self@),
    {
    }

    /// Begins an epoch on `table`. `flush_every_n_items` must not be zero.
    pub fn new(
        table: WITTable,
        preserve_quota_percent: u8,
        flush_every_n_items: usize,
    ) -> (s: Scheduler)
        requires
            table.wf(),
            flush_every_n_items >= 1,
        ensures
            s.wf(),
            s@ == start_of(table@, preserve_quota_percent, flush_every_n_items as nat),
    {
        let n: u64 = table.len() as u64;
        let quota: i64 = if n > i64::MAX as u64 {
            i64::MAX
        } else {
            n as i64
        };
        let s = Scheduler {
            table,
            shadow: WITTable::default(),
            in_flight: None,
            quota,
            quota_known: false,
            preserve_quota_percent,
            flush_every_n_items,
        };
        proof {
            assert(s@ == start_of(table@, preserve_quota_percent, flush_every_n_items as nat));
            assert forall|k: Seq<char>| #[trigger] key_count(s@, k) <= 1 by {}
        }
        s
    }

    /// The calls that the epoch may still make.
    pub fn quota(&self) -> (r: i64)
        ensures
            r == self@.quota,
    {
        self.quota
    }

    /// Says what is to be done next. While an entry is in flight, it is handed
    /// out again. Otherwise, if the epoch continues, the waiting entry that is
    /// due first is handed out; if not, the epoch is to be drained.
    pub fn next(&mut self) -> (action: Action)
        requires
            old(self).wf(),
        ensures
            final(self).wf(),
            forall|x: Seq<char>| key_count(final(self)@, x) == key_count(old(self)@, x),
            snapshot_of(final(self)@) == snapshot_of(old(self)@),
            match action {
                Action::Annotate(key) => {
                    if old(self)@.in_flight is Some {
                        flying(old(self)@, key@) && final(self)@ == old(self)@
                    } else {
                        &&& continues(old(self)@)
                        &&& is_first(old(self)@.waiting, key@)
                        &&& final(self)@ == handed_out(old(self)@, key@)
                    }
                },
                Action::Drain => {
                    &&& old(self)@.in_flight is None
                    &&& !continues(old(self)@)
                    &&& final(self)@ == old(self)@
                },
            },
    {
        match &self.in_flight {
            Some(e) => {
                return Action::Annotate(e.0.clone());
            },
            None => {},
        }
        if self.quota > 0 && !self.table.is_empty() {
            let ghost before = self@;
            match self.table.pop() {
                Some(e) => {
                    let key = e.0.clone();
                    self.in_flight = Some(e);
                    proof {
                        assert(self@ == handed_out(before, key@));
                        lemma_handed_out_conserves(before, key@);
                    }
                    Action::Annotate(key)
                },
                None => Action::Drain,
            }
        } else {
            Action::Drain
        }
    }

    /// Takes the outcome of the entry in flight and says whether the table is
    /// now to be persisted. Without an entry in flight nothing changes.
    pub fn complete(&mut self, outcome: Outcome) -> (flush: bool)
        requires
            old(self).wf(),
        ensures
            final(self).wf(),
            final(self)@ == completed(old(self)@, outcome),
            flush == flush_due(old(self)@, outcome),
    {
        let ghost before = self@;
        proof {
            lemma_completed_conserves(before, outcome);
        }
        match self.in_flight.take() {
            None => false,
            Some(e) => {
                let key = e.0;
                let cnt = e.1;
                match outcome {
                    Outcome::Tagged(q) | Outcome::LowConfidence(q) => {
                        let advanced = self.table.advance(cnt);
                        self.shadow.push(key.as_str(), advanced);
                        self.quota = q.available_long_quota(self.preserve_quota_percent);
                        self.quota_known = true;
                    },
                    Outcome::Failed(AnnotationError::NotFound) => {
                        assert(self@ == completed(before, outcome));
                        return false;
                    },
                    Outcome::Failed(AnnotationError::InvalidResponse) => {
                        self.shadow.push(key.as_str(), cnt);
                        if !self.quota_known {
                            self.quota = 0;
                        }
                    },
                    Outcome::Failed(_) => {
                        self.shadow.push(key.as_str(), cnt);
                        self.quota = 0;
                    },
                }
                assert(self@ == completed(before, outcome));
                self.shadow.len() % self.flush_every_n_items == 0
            },
        }
    }

    /// The whole table as it is to be persisted now. An entry in flight is in
    /// it with the priority at which it was handed out.
    pub fn snapshot(&self) -> (t: WITTable)
        requires
            self.wf(),
        ensures
            t.wf(),
            t@ == snapshot_of(self@),
    {
        let mut t = WITTable::default();
        t.merge(&self.table);
        t.merge(&self.shadow);
        match &self.in_flight {
            Some(e) => {
                t.push(e.0.as_str(), e.1);
            },
            None => {},
        }
        proof {
            assert(t@ =~= snapshot_of(self@));
        }
        t
    }

    /// Ends the epoch and hands back the merged table.
    pub fn drain(self) -> (t: WITTable)
        requires
            self.wf(),
        ensures
            t.wf(),
            t@ == snapshot_of(self@),
    {
        self.snapshot()
    }
}

} // verus!
