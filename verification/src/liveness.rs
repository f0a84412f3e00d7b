//! No image starves: in a table that is rotated entry by entry, every entry
//! comes up after a bounded number of rotations.
//!
//! A rotation takes out the entry that is due first, advances its priority
//! and puts it back: `pop`, then `advance`, then `push` of the table.

use vstd::prelude::*;
use crate::listing::{
    as_map, index_of, is_first, lemma_as_map_entries, lemma_as_map_is, lemma_as_map_len,
    lemma_first_unique, sorted, Entry,
};
use crate::quota::QuotaState;
use crate::rotation::{make_room, next_priority, MAX_PRIORITY};
use crate::scheduler::{completed, handed_out, snapshot_of, start_of, Outcome};
use crate::table::WITTable;

verus! {

/// No priority of `m` exceeds `MAX_PRIORITY`.
pub open spec fn bounded(m: Map<Seq<char>, u8>) -> bool {
    forall|k: Seq<char>| #[trigger] m.contains_key(k) ==> m[k] <= MAX_PRIORITY
}

/// The key that a table with the entries `m` hands out first.
pub open spec fn first_key(m: Map<Seq<char>, u8>) -> Seq<char> {
    choose|k: Seq<char>| is_first(m, k)
}

/// The entries after one rotation: the entry that is due first has its next
/// priority, and the others have made room for it.
pub open spec fn rotated(m: Map<Seq<char>, u8>) -> Map<Seq<char>, u8> {
    let k = first_key(m);
    make_room(m.remove(k), m[k]).insert(k, next_priority(m[k]))
}

/// The entries after `n` rotations.
pub open spec fn rotated_times(m: Map<Seq<char>, u8>, n: nat) -> Map<Seq<char>, u8>
    decreases n,
{
    if n == 0 {
        m
    } else {
        rotated_times(rotated(m), (n - 1) as nat)
    }
}

/// Taking out the entry that is due first, advancing it and putting it back
/// is one rotation.
pub proof fn lemma_pop_advance_push_rotates(m: Map<Seq<char>, u8>, k: Seq<char>)
    requires
        is_first(m, k),
    ensures
        make_room(m.remove(k), m[k]).insert(k, next_priority(m[k])) == rotated(m),
{
    lemma_first_unique(m, k, first_key(m));
}

/// A rotation leaves no priority above `MAX_PRIORITY` if there was none, and
/// it keeps the keys.
pub proof fn lemma_rotated_bounded(m: Map<Seq<char>, u8>, k: Seq<char>)
    requires
        bounded(m),
        is_first(m, k),
    ensures
        bounded(rotated(m)),
        rotated(m).dom() == m.dom(),
{
    lemma_pop_advance_push_rotates(m, k);
    let r = rotated(m);
    assert forall|x: Seq<char>| #[trigger] r.contains_key(x) implies r[x] <= MAX_PRIORITY by {
        if x != k {
            assert(m.contains_key(x));
            assert(m[k] <= m[x] <= MAX_PRIORITY);
        }
    }
    assert(r.dom() =~= m.dom());
}

/// An epoch that gets one answer and is drained then has rotated the table
/// once.
pub proof fn lemma_one_answer_epoch_rotates(
    table: Map<Seq<char>, u8>,
    k: Seq<char>,
    answer: QuotaState,
    preserve_quota_percent: u8,
    flush_every_n_items: nat,
)
    requires
        is_first(table, k),
    ensures
        snapshot_of(
            completed(
                handed_out(start_of(table, preserve_quota_percent, flush_every_n_items), k),
                Outcome::Tagged(answer),
            ),
        ) == rotated(table),
{
    lemma_pop_advance_push_rotates(table, k);
    let begun = start_of(table, preserve_quota_percent, flush_every_n_items);
    let done = completed(handed_out(begun, k), Outcome::Tagged(answer));
    assert(snapshot_of(done) =~= rotated(table));
}

/// The entry at position `i` is due first: none has a smaller priority, and
/// none of the same priority stands before it.
spec fn min_at(l: Seq<Entry>, i: int) -> bool {
    &&& 0 <= i < l.len()
    &&& forall|j: int|
        0 <= j < l.len() ==> l[i].1 < (#[trigger] l[j]).1 || (l[i].1 == l[j].1 && i <= j)
}

/// The position of the entry that is due first.
spec fn first_index(l: Seq<Entry>) -> int {
    choose|i: int| min_at(l, i)
}

/// No priority of the listing exceeds `MAX_PRIORITY`.
spec fn bounded_listing(l: Seq<Entry>) -> bool {
    forall|i: int| 0 <= i < l.len() ==> (#[trigger] l[i]).1 <= MAX_PRIORITY
}

/// The listing after one rotation. The keys stay where they are.
spec fn rotated_listing(l: Seq<Entry>) -> Seq<Entry> {
    let f = first_index(l);
    Seq::new(
        l.len(),
        |i: int|
            if i == f {
                (l[i].0, next_priority(l[i].1))
            } else if l[f].1 >= MAX_PRIORITY {
                (l[i].0, (l[i].1 - 1) as u8)
            } else {
                l[i]
            },
    )
}

/// By how much the entry at `z` is ahead of the entry at `x`: how often it
/// can be handed out before the entry at `x` is.
spec fn lead(l: Seq<Entry>, x: int, z: int) -> int {
    if z == x {
        0
    } else {
        let d = l[x].1 - l[z].1 + (if z < x {
            1int
        } else {
            0int
        });
        if d > 0 {
            d
        } else {
            0
        }
    }
}

/// The leads of the first `n` entries over the entry at `x`, added up.
spec fn wait_upto(l: Seq<Entry>, x: int, n: int) -> int
    decreases n,
{
    if n <= 0 {
        0
    } else {
        wait_upto(l, x, n - 1) + lead(l, x, n - 1)
    }
}

/// How many rotations the entry at `x` waits at most.
spec fn wait(l: Seq<Entry>, x: int) -> int {
    wait_upto(l, x, l.len() as int)
}

proof fn lemma_min_exists(l: Seq<Entry>)
    requires
        l.len() > 0,
    ensures
        min_at(l, first_index(l)),
    decreases l.len(),
{
    if l.len() == 1 {
        assert(min_at(l, 0));
    } else {
        let front = l.drop_last();
        lemma_min_exists(front);
        let i = first_index(front);
        let last = l.len() - 1;
        assert forall|j: int| 0 <= j < front.len() implies front[j] == l[j] by {}
        if l[last].1 < l[i].1 {
            assert forall|j: int| 0 <= j < l.len() implies l[last].1 < (#[trigger] l[j]).1 || (
            l[last].1 == l[j].1 && last <= j) by {
                if j < last {
                    assert(front[j] == l[j]);
                    assert(front[i].1 < front[j].1 || (front[i].1 == front[j].1 && i <= j));
                }
            }
            assert(min_at(l, last));
        } else {
            assert forall|j: int| 0 <= j < l.len() implies l[i].1 < (#[trigger] l[j]).1 || (l[i].1
                == l[j].1 && i <= j) by {
                if j < last {
                    assert(front[j] == l[j]);
                    assert(front[i].1 < front[j].1 || (front[i].1 == front[j].1 && i <= j));
                }
            }
            assert(min_at(l, i));
        }
    }
}

proof fn lemma_min_is_first(l: Seq<Entry>, i: int)
    requires
        sorted(l),
        min_at(l, i),
    ensures
        is_first(as_map(l), l[i].0),
        first_key(as_map(l)) == l[i].0,
        as_map(l)[l[i].0] == l[i].1,
{
    lemma_as_map_entries(l);
    let m = as_map(l);
    let k = l[i].0;
    assert forall|x: Seq<char>| #[trigger] m.contains_key(x) && x != k implies m[k] < m[x] || (m[k]
        == m[x] && crate::key_order::key_less(k, x)) by {
        let j = index_of(l, x);
        assert(l[i].1 < l[j].1 || (l[i].1 == l[j].1 && i <= j));
        if i < j {
            assert(crate::key_order::key_less(l[i].0, l[j].0));
        }
    }
    lemma_first_unique(m, k, first_key(m));
}

proof fn lemma_rotated_listing(l: Seq<Entry>)
    requires
        sorted(l),
        bounded_listing(l),
        l.len() > 0,
    ensures
        sorted(rotated_listing(l)),
        bounded_listing(rotated_listing(l)),
        rotated_listing(l).len() == l.len(),
        forall|i: int| 0 <= i < l.len() ==> (#[trigger] rotated_listing(l)[i]).0 == l[i].0,
        as_map(rotated_listing(l)) == rotated(as_map(l)),
{
    let r = rotated_listing(l);
    let f = first_index(l);
    lemma_min_exists(l);
    lemma_min_is_first(l, f);
    lemma_as_map_entries(l);
    let m = as_map(l);
    let k = l[f].0;
    let target = rotated(m);
    assert forall|i: int, j: int| 0 <= i < j < r.len() implies crate::key_order::key_less(
        #[trigger] r[i].0,
        #[trigger] r[j].0,
    ) by {
        assert(r[i].0 == l[i].0 && r[j].0 == l[j].0);
        assert(crate::key_order::key_less(l[i].0, l[j].0));
    }
    assert forall|i: int| 0 <= i < r.len() implies (#[trigger] r[i]).1 <= MAX_PRIORITY by {
        assert(l[i].1 <= MAX_PRIORITY);
    }
    crate::listing::lemma_sorted_distinct(l);
    assert forall|i: int| 0 <= i < r.len() implies target.contains_key(#[trigger] r[i].0)
        && target[r[i].0] == r[i].1 by {
        assert(r[i].0 == l[i].0);
        assert(m.contains_key(l[i].0) && m[l[i].0] == l[i].1);
        if i != f {
            assert(l[i].0 != k);
            assert(m.remove(k).contains_key(l[i].0));
            assert(l[f].1 < l[i].1 || (l[f].1 == l[i].1 && f <= i));
        }
    }
    assert forall|x: Seq<char>| #[trigger] target.contains_key(x) implies crate::listing::has_key(
        r,
        x,
    ) by {
        if x == k {
            assert(r[f].0 == x);
        } else {
            assert(m.contains_key(x));
            let i = index_of(l, x);
            assert(r[i].0 == x);
        }
    }
    lemma_as_map_is(r, target);
}

proof fn lemma_wait_bounds(l: Seq<Entry>, x: int, n: int)
    requires
        bounded_listing(l),
        0 <= x < l.len(),
        0 <= n <= l.len(),
    ensures
        0 <= wait_upto(l, x, n) <= (n - (if x < n {
            1int
        } else {
            0int
        })) * (MAX_PRIORITY + 1),
        forall|z: int| 0 <= z < n ==> 0 <= #[trigger] lead(l, x, z) <= wait_upto(l, x, n),
    decreases n,
{
    if n > 0 {
        lemma_wait_bounds(l, x, n - 1);
        assert(l[x].1 <= MAX_PRIORITY);
        assert(l[n - 1].1 >= 0);
        assert forall|z: int| 0 <= z < n implies 0 <= #[trigger] lead(l, x, z) <= wait_upto(
            l,
            x,
            n,
        ) by {
            if z < n - 1 {
                assert(lead(l, x, z) <= wait_upto(l, x, n - 1));
            }
        }
    }
}

proof fn lemma_wait_drops(a: Seq<Entry>, b: Seq<Entry>, x: int, f: int, n: int)
    requires
        a.len() == b.len(),
        0 <= n <= a.len(),
        0 <= f,
        forall|z: int| 0 <= z < n ==> #[trigger] lead(b, x, z) <= lead(a, x, z),
        f < n ==> lead(b, x, f) + 1 <= lead(a, x, f),
    ensures
        wait_upto(b, x, n) + (if f < n {
            1int
        } else {
            0int
        }) <= wait_upto(a, x, n),
    decreases n,
{
    if n > 0 {
        assert(lead(b, x, n - 1) <= lead(a, x, n - 1));
        lemma_wait_drops(a, b, x, f, n - 1);
    }
}

proof fn lemma_rotation_shortens_wait(l: Seq<Entry>, x: int)
    requires
        sorted(l),
        bounded_listing(l),
        0 <= x < l.len(),
        first_index(l) != x,
    ensures
        wait(rotated_listing(l), x) < wait(l, x),
{
    let r = rotated_listing(l);
    let f = first_index(l);
    lemma_min_exists(l);
    assert(l[f].1 < l[x].1 || (l[f].1 == l[x].1 && f <= x));
    assert forall|z: int| 0 <= z < l.len() implies #[trigger] lead(r, x, z) <= lead(l, x, z) by {
        assert(l[f].1 < l[z].1 || (l[f].1 == l[z].1 && f <= z));
        assert(l[z].1 <= MAX_PRIORITY);
        assert(l[x].1 <= MAX_PRIORITY);
    }
    assert(lead(r, x, f) + 1 <= lead(l, x, f)) by {
        assert(l[x].1 <= MAX_PRIORITY);
        assert(l[f].1 <= MAX_PRIORITY);
    }
    lemma_wait_drops(l, r, x, f, l.len() as int);
}

proof fn lemma_listing_no_starvation(l: Seq<Entry>, x: int)
    requires
        sorted(l),
        bounded_listing(l),
        0 <= x < l.len(),
    ensures
        exists|n: nat| n <= wait(l, x) && is_first(#[trigger] rotated_times(as_map(l), n), l[x].0),
    decreases wait(l, x),
{
    lemma_min_exists(l);
    lemma_wait_bounds(l, x, l.len() as int);
    let f = first_index(l);
    if f == x {
        lemma_min_is_first(l, x);
        assert(is_first(rotated_times(as_map(l), 0), l[x].0));
    } else {
        let r = rotated_listing(l);
        lemma_rotated_listing(l);
        lemma_rotation_shortens_wait(l, x);
        lemma_wait_bounds(r, x, r.len() as int);
        lemma_listing_no_starvation(r, x);
        let n = choose|n: nat|
            n <= wait(r, x) && is_first(#[trigger] rotated_times(as_map(r), n), r[x].0);
        assert(r[x].0 == l[x].0);
        assert(rotated_times(as_map(l), n + 1) == rotated_times(as_map(r), n));
        assert(is_first(rotated_times(as_map(l), n + 1), l[x].0));
    }
}

/// No entry starves. Let a table hold no priority above `MAX_PRIORITY`, and
/// let it be rotated again and again. Then every key of the table is handed
/// out first after a number of rotations that is at most the number of the
/// other keys times `MAX_PRIORITY + 1`.
pub proof fn lemma_no_starvation(t: WITTable, key: Seq<char>)
    requires
        t.wf(),
        bounded(t@),
        t@.contains_key(key),
    ensures
        exists|n: nat|
            n <= (t@.dom().len() - 1) * (MAX_PRIORITY + 1) && is_first(
                #[trigger] rotated_times(t@, n),
                key,
            ),
{
    let l = t.listing();
    t.lemma_listing_sorted();
    lemma_as_map_entries(l);
    lemma_as_map_len(l);
    let x = index_of(l, key);
    assert forall|i: int| 0 <= i < l.len() implies (#[trigger] l[i]).1 <= MAX_PRIORITY by {
        assert(t@.contains_key(l[i].0));
    }
    lemma_listing_no_starvation(l, x);
    lemma_wait_bounds(l, x, l.len() as int);
    let n = choose|n: nat|
        n <= wait(l, x) && is_first(#[trigger] rotated_times(as_map(l), n), l[x].0);
    assert(is_first(rotated_times(t@, n), key));
}

} // verus!
