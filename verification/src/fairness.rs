//! No image starves over the epochs either: whatever epochs follow one
//! another, every image of the table is handed out after a bounded number of
//! answers.
//!
//! An epoch holds the entries that it has queued again back until it is
//! drained, and the next epoch begins on the merged table. The law here speaks
//! of any run of such epochs in which the service answers.

use vstd::prelude::*;
use crate::key_order::{key_less, lemma_key_less_irreflexive};
use crate::listing::{is_first, lemma_as_map_entries, lemma_as_map_len, lemma_first_unique};
use crate::liveness::{bounded, first_key};
use crate::quota::QuotaState;
use crate::rotation::{make_room, next_priority, MAX_PRIORITY};
use crate::scheduler::{completed, handed_out, snapshot_of, start_of, EpochState, Outcome};
use crate::table::WITTable;

verus! {

/// The state after the entry that is due first was handed out and the service
/// answered with the counters `q`.
pub open spec fn answered(s: EpochState, q: QuotaState) -> EpochState {
    completed(handed_out(s, first_key(s.waiting)), Outcome::Tagged(q))
}

/// The state in which the next epoch begins once the epoch in state `s` was
/// drained.
pub open spec fn renewed(s: EpochState) -> EpochState {
    start_of(snapshot_of(s), s.preserve_quota_percent, s.flush_every_n_items)
}

/// The state after one move: an answer with its counters, or, for `None`, the
/// beginning of the next epoch.
pub open spec fn moved(s: EpochState, m: Option<QuotaState>) -> EpochState {
    match m {
        Some(q) => answered(s, q),
        None => renewed(s),
    }
}

/// The state after a run of moves.
pub open spec fn after(s: EpochState, moves: Seq<Option<QuotaState>>) -> EpochState
    decreases moves.len(),
{
    if moves.len() == 0 {
        s
    } else {
        after(moved(s, moves[0]), moves.drop_first())
    }
}

/// The run can take place: whenever it has an answer, an entry is waiting.
pub open spec fn possible(s: EpochState, moves: Seq<Option<QuotaState>>) -> bool
    decreases moves.len(),
{
    if moves.len() == 0 {
        true
    } else {
        &&& moves[0] is Some ==> exists|k: Seq<char>| s.waiting.contains_key(k)
        &&& possible(moved(s, moves[0]), moves.drop_first())
    }
}

/// The number of answers in the run.
pub open spec fn answers(moves: Seq<Option<QuotaState>>) -> nat
    decreases moves.len(),
{
    if moves.len() == 0 {
        0
    } else {
        answers(moves.drop_first()) + (if moves[0] is Some {
            1nat
        } else {
            0nat
        })
    }
}

/// The entry with the key `x` is handed out in the course of the run.
pub open spec fn handed(s: EpochState, moves: Seq<Option<QuotaState>>, x: Seq<char>) -> bool
    decreases moves.len(),
{
    if moves.len() == 0 {
        false
    } else {
        ||| moves[0] is Some && first_key(s.waiting) == x
        ||| handed(moved(s, moves[0]), moves.drop_first(), x)
    }
}

/// One key of the epoch with its priority, and whether it is waiting or was
/// queued again.
struct Slot {
    key: Seq<char>,
    priority: u8,
    waiting: bool,
}

spec fn slots_sorted(l: Seq<Slot>) -> bool {
    forall|i: int, j: int|
        0 <= i < j < l.len() ==> key_less((#[trigger] l[i]).key, (#[trigger] l[j]).key)
}

spec fn slots_bounded(l: Seq<Slot>) -> bool {
    forall|i: int| 0 <= i < l.len() ==> (#[trigger] l[i]).priority <= MAX_PRIORITY
}

spec fn slot_of(l: Seq<Slot>, k: Seq<char>) -> int {
    choose|i: int| 0 <= i < l.len() && (#[trigger] l[i]).key == k
}

/// The entries of the slots that are waiting, or of those that are not.
spec fn part(l: Seq<Slot>, waiting: bool) -> Map<Seq<char>, u8> {
    Map::new(
        |k: Seq<char>|
            exists|i: int|
                0 <= i < l.len() && (#[trigger] l[i]).key == k && l[i].waiting == waiting,
        |k: Seq<char>| l[slot_of(l, k)].priority,
    )
}

/// The slots stand for the state.
spec fn stands_for(l: Seq<Slot>, s: EpochState) -> bool {
    &&& s.waiting == part(l, true)
    &&& s.requeued == part(l, false)
    &&& s.in_flight is None
}

proof fn lemma_part(l: Seq<Slot>)
    requires
        slots_sorted(l),
    ensures
        forall|i: int, j: int|
            0 <= i < l.len() && 0 <= j < l.len() && (#[trigger] l[i]).key == (#[trigger] l[j]).key
                ==> i == j,
        forall|i: int|
            0 <= i < l.len() ==> slot_of(l, (#[trigger] l[i]).key) == i && part(
                l,
                l[i].waiting,
            ).contains_key(l[i].key) && part(l, l[i].waiting)[l[i].key] == l[i].priority && !part(
                l,
                !l[i].waiting,
            ).contains_key(l[i].key),
        forall|k: Seq<char>, w: bool| #[trigger]
            part(l, w).contains_key(k) ==> 0 <= slot_of(l, k) < l.len() && l[slot_of(l, k)].key == k
                && l[slot_of(l, k)].waiting == w,
{
    assert forall|i: int, j: int|
        0 <= i < l.len() && 0 <= j < l.len() && (#[trigger] l[i]).key == (#[trigger] l[j]).key
        implies i == j by {
        lemma_key_less_irreflexive(l[i].key);
        if i < j {
            assert(key_less(l[i].key, l[j].key));
        } else if j < i {
            assert(key_less(l[j].key, l[i].key));
        }
    }
    assert forall|i: int| 0 <= i < l.len() implies slot_of(l, (#[trigger] l[i]).key) == i && part(
        l,
        l[i].waiting,
    ).contains_key(l[i].key) && part(l, l[i].waiting)[l[i].key] == l[i].priority && !part(
        l,
        !l[i].waiting,
    ).contains_key(l[i].key) by {
        let j = slot_of(l, l[i].key);
        assert(l[j].key == l[i].key);
        if part(l, !l[i].waiting).contains_key(l[i].key) {
            let o = choose|o: int|
                0 <= o < l.len() && (#[trigger] l[o]).key == l[i].key && l[o].waiting
                    == !l[i].waiting;
            assert(l[o].key == l[i].key);
        }
    }
    assert forall|k: Seq<char>, w: bool| #[trigger] part(l, w).contains_key(k) implies 0 <= slot_of(
        l,
        k,
    ) < l.len() && l[slot_of(l, k)].key == k && l[slot_of(l, k)].waiting == w by {
        let o = choose|o: int| 0 <= o < l.len() && (#[trigger] l[o]).key == k && l[o].waiting == w;
        let j = slot_of(l, k);
        assert(l[j].key == l[o].key);
    }
}

/// The waiting slot at `f` is due first among the waiting slots.
spec fn first_at(l: Seq<Slot>, f: int) -> bool {
    &&& 0 <= f < l.len()
    &&& l[f].waiting
    &&& forall|j: int|
        0 <= j < l.len() && (#[trigger] l[j]).waiting ==> l[f].priority < l[j].priority || (
        l[f].priority == l[j].priority && f <= j)
}

spec fn first_slot(l: Seq<Slot>) -> int {
    choose|f: int| first_at(l, f)
}

proof fn lemma_first_slot_exists(l: Seq<Slot>, w: int)
    requires
        0 <= w < l.len(),
        l[w].waiting,
    ensures
        first_at(l, first_slot(l)),
    decreases l.len(),
{
    let front = l.drop_last();
    let last = l.len() - 1;
    assert forall|j: int| 0 <= j < front.len() implies front[j] == l[j] by {}
    if exists|v: int| 0 <= v < front.len() && (#[trigger] front[v]).waiting {
        let v = choose|v: int| 0 <= v < front.len() && (#[trigger] front[v]).waiting;
        lemma_first_slot_exists(front, v);
        let f = first_slot(front);
        if l[last].waiting && l[last].priority < l[f].priority {
            assert forall|j: int|
                0 <= j < l.len() && (#[trigger] l[j]).waiting implies l[last].priority
                < l[j].priority || (l[last].priority == l[j].priority && last <= j) by {
                if j < last {
                    assert(front[j].waiting);
                }
            }
            assert(first_at(l, last));
        } else {
            assert forall|j: int|
                0 <= j < l.len() && (#[trigger] l[j]).waiting implies l[f].priority
                < l[j].priority || (l[f].priority == l[j].priority && f <= j) by {
                if j < last {
                    assert(front[j].waiting);
                }
            }
            assert(first_at(l, f));
        }
    } else {
        assert forall|j: int| 0 <= j < l.len() && (#[trigger] l[j]).waiting implies j == last by {
            if j < last {
                assert(front[j].waiting);
            }
        }
        assert(first_at(l, last));
    }
}

proof fn lemma_first_slot_is_first_key(l: Seq<Slot>, f: int)
    requires
        slots_sorted(l),
        first_at(l, f),
    ensures
        is_first(part(l, true), l[f].key),
        first_key(part(l, true)) == l[f].key,
        part(l, true)[l[f].key] == l[f].priority,
{
    lemma_part(l);
    let m = part(l, true);
    let k = l[f].key;
    assert forall|x: Seq<char>| #[trigger] m.contains_key(x) && x != k implies m[k] < m[x] || (m[k]
        == m[x] && key_less(k, x)) by {
        let j = slot_of(l, x);
        assert(l[j].waiting);
        assert(l[f].priority < l[j].priority || (l[f].priority == l[j].priority && f <= j));
        if f < j {
            assert(key_less(l[f].key, l[j].key));
        }
    }
    lemma_first_unique(m, k, first_key(m));
}

/// The slots after the slot that is due first was handed out and answered.
spec fn answered_slots(l: Seq<Slot>) -> Seq<Slot> {
    let f = first_slot(l);
    Seq::new(
        l.len(),
        |i: int|
            if i == f {
                Slot { key: l[i].key, priority: next_priority(l[i].priority), waiting: false }
            } else if l[i].waiting && l[f].priority >= MAX_PRIORITY {
                Slot { key: l[i].key, priority: (l[i].priority - 1) as u8, waiting: true }
            } else {
                l[i]
            },
    )
}

/// The slots at the beginning of the next epoch: all are waiting again.
spec fn renewed_slots(l: Seq<Slot>) -> Seq<Slot> {
    Seq::new(l.len(), |i: int| Slot { key: l[i].key, priority: l[i].priority, waiting: true })
}

proof fn lemma_answered_slots(l: Seq<Slot>, s: EpochState, q: QuotaState)
    requires
        slots_sorted(l),
        slots_bounded(l),
        stands_for(l, s),
        exists|k: Seq<char>| s.waiting.contains_key(k),
    ensures
        first_at(l, first_slot(l)),
        first_key(s.waiting) == l[first_slot(l)].key,
        slots_sorted(answered_slots(l)),
        slots_bounded(answered_slots(l)),
        answered_slots(l).len() == l.len(),
        forall|i: int| 0 <= i < l.len() ==> (#[trigger] answered_slots(l)[i]).key == l[i].key,
        stands_for(answered_slots(l), answered(s, q)),
{
    lemma_part(l);
    let k0 = choose|k: Seq<char>| s.waiting.contains_key(k);
    lemma_first_slot_exists(l, slot_of(l, k0));
    let f = first_slot(l);
    lemma_first_slot_is_first_key(l, f);
    let r = answered_slots(l);
    let k = l[f].key;
    let c = l[f].priority;
    assert forall|i: int, j: int| 0 <= i < j < r.len() implies key_less(
        (#[trigger] r[i]).key,
        (#[trigger] r[j]).key,
    ) by {
        assert(key_less(l[i].key, l[j].key));
    }
    assert forall|i: int| 0 <= i < r.len() implies (#[trigger] r[i]).priority <= MAX_PRIORITY by {
        assert(l[i].priority <= MAX_PRIORITY);
    }
    lemma_part(r);
    let t = answered(s, q);
    assert(t.waiting == make_room(s.waiting.remove(k), c));
    assert(t.requeued == s.requeued.insert(k, next_priority(c)));
    assert(part(r, true) =~= t.waiting) by {
        assert forall|x: Seq<char>| part(r, true).contains_key(x) implies t.waiting.contains_key(
            x,
        ) && t.waiting[x] == part(r, true)[x] by {
            let i = slot_of(r, x);
            assert(r[i].key == l[i].key);
            assert(i != f);
            assert(l[i].waiting);
            assert(part(l, true).contains_key(l[i].key));
            assert(l[f].priority < l[i].priority || (l[f].priority == l[i].priority && f <= i));
        }
        assert forall|x: Seq<char>| t.waiting.contains_key(x) implies part(r, true).contains_key(
            x,
        ) by {
            assert(s.waiting.contains_key(x) && x != k);
            let i = slot_of(l, x);
            assert(r[i].key == x && r[i].waiting);
        }
    }
    assert(part(r, false) =~= t.requeued) by {
        assert forall|x: Seq<char>| part(r, false).contains_key(x) implies t.requeued.contains_key(
            x,
        ) && t.requeued[x] == part(r, false)[x] by {
            let i = slot_of(r, x);
            assert(r[i].key == l[i].key);
            if i != f {
                assert(!l[i].waiting);
                assert(part(l, false).contains_key(l[i].key));
            }
        }
        assert forall|x: Seq<char>| t.requeued.contains_key(x) implies part(
            r,
            false,
        ).contains_key(x) by {
            if x == k {
                assert(r[f].key == x && !r[f].waiting);
            } else {
                assert(s.requeued.contains_key(x));
                let i = slot_of(l, x);
                assert(r[i].key == x && !r[i].waiting);
            }
        }
    }
}

proof fn lemma_renewed_slots(l: Seq<Slot>, s: EpochState)
    requires
        slots_sorted(l),
        slots_bounded(l),
        stands_for(l, s),
    ensures
        slots_sorted(renewed_slots(l)),
        slots_bounded(renewed_slots(l)),
        renewed_slots(l).len() == l.len(),
        forall|i: int| 0 <= i < l.len() ==> (#[trigger] renewed_slots(l)[i]).key == l[i].key,
        stands_for(renewed_slots(l), renewed(s)),
{
    lemma_part(l);
    let r = renewed_slots(l);
    assert forall|i: int, j: int| 0 <= i < j < r.len() implies key_less(
        (#[trigger] r[i]).key,
        (#[trigger] r[j]).key,
    ) by {
        assert(key_less(l[i].key, l[j].key));
    }
    assert forall|i: int| 0 <= i < r.len() implies (#[trigger] r[i]).priority <= MAX_PRIORITY by {
        assert(l[i].priority <= MAX_PRIORITY);
    }
    lemma_part(r);
    let t = renewed(s);
    let merged = s.waiting.union_prefer_right(s.requeued);
    assert(t.waiting == merged);
    assert(part(r, true) =~= merged) by {
        assert forall|x: Seq<char>| part(r, true).contains_key(x) implies merged.contains_key(x)
            && merged[x] == part(r, true)[x] by {
            let i = slot_of(r, x);
            assert(r[i].key == l[i].key);
            assert(part(l, l[i].waiting).contains_key(l[i].key));
        }
        assert forall|x: Seq<char>| merged.contains_key(x) implies part(r, true).contains_key(
            x,
        ) by {
            let i = slot_of(l, x);
            assert(r[i].key == x && r[i].waiting);
        }
    }
    assert(part(r, false) =~= Map::<Seq<char>, u8>::empty()) by {
        assert forall|x: Seq<char>| !part(r, false).contains_key(x) by {
            if part(r, false).contains_key(x) {
                let i = slot_of(r, x);
                assert(r[i].waiting);
            }
        }
    }
}

/// By how much the slot at `z` is ahead of the slot at `x`.
spec fn lead(l: Seq<Slot>, x: int, z: int) -> int {
    if z == x {
        0
    } else {
        let d = l[x].priority - l[z].priority + (if z < x {
            1int
        } else {
            0int
        });
        if d > 0 {
            d
        } else {
            0
        }
    }
}

spec fn lead_upto(l: Seq<Slot>, x: int, n: int) -> int
    decreases n,
{
    if n <= 0 {
        0
    } else {
        lead_upto(l, x, n - 1) + lead(l, x, n - 1)
    }
}

spec fn waiting_upto(l: Seq<Slot>, n: int) -> int
    decreases n,
{
    if n <= 0 {
        0
    } else {
        waiting_upto(l, n - 1) + (if l[n - 1].waiting {
            1int
        } else {
            0int
        })
    }
}

/// How many answers the slot at `x` waits at most until it is handed out.
spec fn patience(l: Seq<Slot>, x: int) -> int {
    if l[x].waiting {
        lead_upto(l, x, l.len() as int)
    } else {
        waiting_upto(l, l.len() as int) + 1 + (l.len() - 1) * (MAX_PRIORITY + 1)
    }
}

proof fn lemma_lead_bounds(l: Seq<Slot>, x: int, n: int)
    requires
        slots_bounded(l),
        0 <= x < l.len(),
        0 <= n <= l.len(),
    ensures
        0 <= lead_upto(l, x, n) <= (n - (if x < n {
            1int
        } else {
            0int
        })) * (MAX_PRIORITY + 1),
        forall|z: int| 0 <= z < n ==> 0 <= #[trigger] lead(l, x, z) <= lead_upto(l, x, n),
    decreases n,
{
    if n > 0 {
        lemma_lead_bounds(l, x, n - 1);
        assert(l[x].priority <= MAX_PRIORITY);
        assert(l[n - 1].priority >= 0);
        assert forall|z: int| 0 <= z < n implies 0 <= #[trigger] lead(l, x, z) <= lead_upto(
            l,
            x,
            n,
        ) by {
            if z < n - 1 {
                assert(lead(l, x, z) <= lead_upto(l, x, n - 1));
            }
        }
    }
}

proof fn lemma_lead_drops(a: Seq<Slot>, b: Seq<Slot>, x: int, f: int, n: int)
    requires
        a.len() == b.len(),
        0 <= n <= a.len(),
        0 <= f,
        forall|z: int| 0 <= z < n ==> #[trigger] lead(b, x, z) <= lead(a, x, z),
        f < n ==> lead(b, x, f) + 1 <= lead(a, x, f),
    ensures
        lead_upto(b, x, n) + (if f < n {
            1int
        } else {
            0int
        }) <= lead_upto(a, x, n),
    decreases n,
{
    if n > 0 {
        assert(lead(b, x, n - 1) <= lead(a, x, n - 1));
        lemma_lead_drops(a, b, x, f, n - 1);
    }
}

proof fn lemma_waiting_bounds(l: Seq<Slot>, n: int)
    requires
        0 <= n <= l.len(),
    ensures
        0 <= waiting_upto(l, n) <= n,
    decreases n,
{
    if n > 0 {
        lemma_waiting_bounds(l, n - 1);
    }
}

proof fn lemma_waiting_drops(a: Seq<Slot>, b: Seq<Slot>, f: int, n: int)
    requires
        a.len() == b.len(),
        0 <= n <= a.len(),
        0 <= f < a.len(),
        a[f].waiting,
        !b[f].waiting,
        forall|z: int| 0 <= z < n && z != f ==> (#[trigger] b[z]).waiting == a[z].waiting,
    ensures
        waiting_upto(b, n) + (if f < n {
            1int
        } else {
            0int
        }) == waiting_upto(a, n),
    decreases n,
{
    if n > 0 {
        if n - 1 != f {
            assert(b[n - 1].waiting == a[n - 1].waiting);
        }
        lemma_waiting_drops(a, b, f, n - 1);
    }
}

proof fn lemma_answer_shortens_patience(l: Seq<Slot>, x: int)
    requires
        slots_sorted(l),
        slots_bounded(l),
        0 <= x < l.len(),
        first_at(l, first_slot(l)),
        first_slot(l) != x,
    ensures
        patience(answered_slots(l), x) < patience(l, x),
{
    let r = answered_slots(l);
    let f = first_slot(l);
    let n = l.len() as int;
    if l[x].waiting {
        assert(l[f].priority < l[x].priority || (l[f].priority == l[x].priority && f <= x));
        assert(l[x].priority <= MAX_PRIORITY);
        assert(l[f].priority <= MAX_PRIORITY);
        assert forall|z: int| 0 <= z < n implies #[trigger] lead(r, x, z) <= lead(l, x, z) by {
            assert(l[z].priority <= MAX_PRIORITY);
            if l[z].waiting {
                assert(l[f].priority < l[z].priority || (l[f].priority == l[z].priority && f
                    <= z));
            }
        }
        assert(lead(r, x, f) + 1 <= lead(l, x, f));
        lemma_lead_drops(l, r, x, f, n);
    } else {
        lemma_waiting_drops(l, r, f, n);
    }
}

proof fn lemma_renewal_keeps_patience(l: Seq<Slot>, x: int)
    requires
        slots_bounded(l),
        0 <= x < l.len(),
    ensures
        patience(renewed_slots(l), x) <= patience(l, x),
{
    let r = renewed_slots(l);
    let n = l.len() as int;
    assert forall|z: int| 0 <= z < n implies #[trigger] lead(r, x, z) <= lead(l, x, z) by {}
    lemma_lead_drops(l, r, x, n, n);
    assert forall|z: int| 0 <= z < n implies #[trigger] lead(l, x, z) <= lead(r, x, z) by {}
    lemma_lead_drops(r, l, x, n, n);
    if !l[x].waiting {
        assert forall|i: int| 0 <= i < r.len() implies (#[trigger] r[i]).priority
            <= MAX_PRIORITY by {
            assert(l[i].priority <= MAX_PRIORITY);
        }
        lemma_lead_bounds(r, x, n);
        lemma_waiting_bounds(l, n);
    }
}

proof fn lemma_slots_fair(l: Seq<Slot>, s: EpochState, moves: Seq<Option<QuotaState>>, x: int)
    requires
        slots_sorted(l),
        slots_bounded(l),
        stands_for(l, s),
        0 <= x < l.len(),
        possible(s, moves),
        answers(moves) > patience(l, x),
    ensures
        handed(s, moves, l[x].key),
    decreases moves.len(),
{
    lemma_lead_bounds(l, x, l.len() as int);
    lemma_waiting_bounds(l, l.len() as int);
    assert((l.len() - 1) * (MAX_PRIORITY + 1) >= 0) by (nonlinear_arith)
        requires
            l.len() >= 1,
    ;
    if moves.len() > 0 {
        match moves[0] {
            Some(q) => {
                lemma_answered_slots(l, s, q);
                let f = first_slot(l);
                if f != x {
                    let r = answered_slots(l);
                    lemma_answer_shortens_patience(l, x);
                    lemma_slots_fair(r, answered(s, q), moves.drop_first(), x);
                }
            },
            None => {
                lemma_renewed_slots(l, s);
                lemma_renewal_keeps_patience(l, x);
                lemma_slots_fair(renewed_slots(l), renewed(s), moves.drop_first(), x);
            },
        }
    }
}

/// The slots of a run stay sorted and bounded, and keep their keys.
proof fn lemma_slots_after(
    l: Seq<Slot>,
    s: EpochState,
    moves: Seq<Option<QuotaState>>,
) -> (r: Seq<Slot>)
    requires
        slots_sorted(l),
        slots_bounded(l),
        stands_for(l, s),
        possible(s, moves),
    ensures
        slots_sorted(r),
        slots_bounded(r),
        stands_for(r, after(s, moves)),
        r.len() == l.len(),
        forall|i: int| 0 <= i < l.len() ==> (#[trigger] r[i]).key == l[i].key,
    decreases moves.len(),
{
    if moves.len() == 0 {
        l
    } else {
        match moves[0] {
            Some(q) => {
                lemma_answered_slots(l, s, q);
                let r = lemma_slots_after(answered_slots(l), answered(s, q), moves.drop_first());
                assert forall|i: int| 0 <= i < l.len() implies (#[trigger] r[i]).key
                    == l[i].key by {
                    assert(answered_slots(l)[i].key == l[i].key);
                }
                r
            },
            None => {
                lemma_renewed_slots(l, s);
                let r = lemma_slots_after(renewed_slots(l), renewed(s), moves.drop_first());
                assert forall|i: int| 0 <= i < l.len() implies (#[trigger] r[i]).key
                    == l[i].key by {
                    assert(renewed_slots(l)[i].key == l[i].key);
                }
                r
            },
        }
    }
}

/// No image starves over the epochs. Let an epoch begin on a table that
/// holds no priority above `MAX_PRIORITY`, and let any run of answers and of
/// new epochs have taken place since. Then in every run that follows, each key
/// of the table is handed out before the run has had more answers than the
/// table has keys, times `MAX_PRIORITY + 2`.
pub proof fn lemma_no_key_starves(
    t: WITTable,
    preserve_quota_percent: u8,
    flush_every_n_items: nat,
    past: Seq<Option<QuotaState>>,
    coming: Seq<Option<QuotaState>>,
    key: Seq<char>,
)
    requires
        t.wf(),
        bounded(t@),
        t@.contains_key(key),
        possible(start_of(t@, preserve_quota_percent, flush_every_n_items), past),
        possible(
            after(start_of(t@, preserve_quota_percent, flush_every_n_items), past),
            coming,
        ),
        answers(coming) > t@.dom().len() * (MAX_PRIORITY + 2),
    ensures
        handed(
            after(start_of(t@, preserve_quota_percent, flush_every_n_items), past),
            coming,
            key,
        ),
{
    let entries = t.listing();
    t.lemma_listing_sorted();
    lemma_as_map_entries(entries);
    lemma_as_map_len(entries);
    let begin = start_of(t@, preserve_quota_percent, flush_every_n_items);
    let l = Seq::new(
        entries.len(),
        |i: int| Slot { key: entries[i].0, priority: entries[i].1, waiting: true },
    );
    assert forall|i: int, j: int| 0 <= i < j < l.len() implies key_less(
        (#[trigger] l[i]).key,
        (#[trigger] l[j]).key,
    ) by {
        assert(key_less(entries[i].0, entries[j].0));
    }
    assert forall|i: int| 0 <= i < l.len() implies (#[trigger] l[i]).priority <= MAX_PRIORITY by {
        assert(t@.contains_key(entries[i].0));
    }
    lemma_part(l);
    assert(part(l, true) =~= t@) by {
        assert forall|k: Seq<char>| part(l, true).contains_key(k) implies t@.contains_key(k)
            && t@[k] == part(l, true)[k] by {
            let i = slot_of(l, k);
            assert(entries[i].0 == k);
        }
        assert forall|k: Seq<char>| t@.contains_key(k) implies part(l, true).contains_key(k) by {
            let i = crate::listing::index_of(entries, k);
            assert(l[i].key == k && l[i].waiting);
        }
    }
    assert(part(l, false) =~= Map::<Seq<char>, u8>::empty()) by {
        assert forall|k: Seq<char>| !part(l, false).contains_key(k) by {
            if part(l, false).contains_key(k) {
                let i = slot_of(l, k);
                assert(l[i].waiting);
            }
        }
    }
    let now = lemma_slots_after(l, begin, past);
    let x = crate::listing::index_of(entries, key);
    assert(now[x].key == l[x].key);
    let n = now.len() as int;
    lemma_lead_bounds(now, x, n);
    lemma_waiting_bounds(now, n);
    assert(patience(now, x) <= n * (MAX_PRIORITY + 2)) by (nonlinear_arith)
        requires
            n >= 1,
            patience(now, x) <= n + 1 + (n - 1) * (MAX_PRIORITY + 1),
            MAX_PRIORITY == 4,
    ;
    lemma_slots_fair(now, after(begin, past), coming, x);
}

} // verus!
