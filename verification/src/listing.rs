//! The mathematical model of a priority table: a listing of entries in
//! strictly increasing key order, and the map that such a listing stands for.

use vstd::prelude::*;
use crate::key_order::{key_less, lemma_key_less_irreflexive};

verus! {

/// One entry of a table: an image key and its priority.
pub type Entry = (Seq<char>, u8);

/// The keys of the listing increase strictly from left to right.
pub open spec fn sorted(l: Seq<Entry>) -> bool {
    forall|i: int, j: int| 0 <= i < j < l.len() ==> key_less(#[trigger] l[i].0, #[trigger] l[j].0)
}

/// Some entry of the listing has the key `k`.
pub open spec fn has_key(l: Seq<Entry>, k: Seq<char>) -> bool {
    exists|i: int| 0 <= i < l.len() && #[trigger] l[i].0 == k
}

/// A position at which the key `k` stands, if it stands anywhere.
pub open spec fn index_of(l: Seq<Entry>, k: Seq<char>) -> int {
    choose|i: int| 0 <= i < l.len() && #[trigger] l[i].0 == k
}

/// The map from key to priority that the listing stands for.
pub open spec fn as_map(l: Seq<Entry>) -> Map<Seq<char>, u8> {
    Map::new(|k: Seq<char>| has_key(l, k), |k: Seq<char>| l[index_of(l, k)].1)
}

/// No key stands at two positions of a sorted listing.
pub proof fn lemma_sorted_distinct(l: Seq<Entry>)
    requires
        sorted(l),
    ensures
        forall|i: int, j: int|
            0 <= i < l.len() && 0 <= j < l.len() && #[trigger] l[i].0 == #[trigger] l[j].0 ==> i
                == j,
{
    assert forall|i: int, j: int|
        0 <= i < l.len() && 0 <= j < l.len() && #[trigger] l[i].0 == #[trigger] l[j].0 implies i
        == j by {
        lemma_key_less_irreflexive(l[i].0);
    }
}

/// Each entry of a sorted listing is found in its map, and nothing else is.
pub proof fn lemma_as_map_entries(l: Seq<Entry>)
    requires
        sorted(l),
    ensures
        forall|i: int|
            0 <= i < l.len() ==> as_map(l).contains_key(#[trigger] l[i].0) && as_map(l)[l[i].0]
                == l[i].1,
        forall|k: Seq<char>| #[trigger]
            as_map(l).contains_key(k) ==> 0 <= index_of(l, k) < l.len() && l[index_of(l, k)].0
                == k,
{
    lemma_sorted_distinct(l);
    assert forall|i: int| 0 <= i < l.len() implies as_map(l).contains_key(#[trigger] l[i].0)
        && as_map(l)[l[i].0] == l[i].1 by {
        let k = l[i].0;
        assert(has_key(l, k));
        let j = index_of(l, k);
        assert(l[j].0 == l[i].0);
    }
}

/// A sorted listing and its map have the same number of entries.
pub proof fn lemma_as_map_len(l: Seq<Entry>)
    requires
        sorted(l),
    ensures
        as_map(l).dom().finite(),
        as_map(l).dom().len() == l.len(),
    decreases l.len(),
{
    if l.len() == 0 {
        assert(as_map(l).dom() =~= Set::<Seq<char>>::empty());
    } else {
        let front = l.drop_last();
        let last = l.last();
        assert(sorted(front)) by {
            assert forall|i: int, j: int| 0 <= i < j < front.len() implies key_less(
                #[trigger] front[i].0,
                #[trigger] front[j].0,
            ) by {
                assert(front[i] == l[i] && front[j] == l[j]);
            }
        }
        lemma_as_map_len(front);
        lemma_as_map_entries(l);
        lemma_as_map_entries(front);
        lemma_sorted_distinct(l);
        assert(!as_map(front).dom().contains(last.0)) by {
            if as_map(front).contains_key(last.0) {
                let i = index_of(front, last.0);
                assert(front[i] == l[i]);
                assert(l[i].0 == l[l.len() - 1].0);
            }
        }
        assert(as_map(l).dom() =~= as_map(front).dom().insert(last.0)) by {
            assert forall|k: Seq<char>| as_map(l).dom().contains(k) implies as_map(
                front,
            ).dom().insert(last.0).contains(k) by {
                let i = index_of(l, k);
                if i < front.len() {
                    assert(front[i] == l[i]);
                }
            }
            assert forall|k: Seq<char>|
                as_map(front).dom().insert(last.0).contains(k) implies as_map(l).dom().contains(
                k,
            ) by {
                if k != last.0 {
                    let i = index_of(front, k);
                    assert(front[i] == l[i]);
                }
            }
        }
    }
}

/// Two sorted listings stand for the same map as soon as every entry of each
/// is accounted for in the map `m`.
pub proof fn lemma_as_map_is(l: Seq<Entry>, m: Map<Seq<char>, u8>)
    requires
        sorted(l),
        forall|i: int|
            0 <= i < l.len() ==> m.contains_key(#[trigger] l[i].0) && m[l[i].0] == l[i].1,
        forall|k: Seq<char>| #[trigger] m.contains_key(k) ==> has_key(l, k),
    ensures
        as_map(l) == m,
{
    lemma_as_map_entries(l);
    assert forall|k: Seq<char>| #[trigger]
        as_map(l).dom().contains(k) <==> m.dom().contains(k) by {
        if as_map(l).dom().contains(k) {
            assert(as_map(l).contains_key(k));
            let i = index_of(l, k);
            assert(m.contains_key(l[i].0));
        }
        if m.dom().contains(k) {
            assert(m.contains_key(k));
        }
    }
    assert forall|k: Seq<char>| #[trigger] as_map(l).dom().contains(k) implies as_map(l)[k]
        == m[k] by {
        assert(as_map(l).contains_key(k));
        let i = index_of(l, k);
        assert(m[l[i].0] == l[i].1);
    }
    assert(as_map(l) =~= m);
}

/// Replacing the priority at one position replaces it in the map.
pub proof fn lemma_update(l: Seq<Entry>, pos: int, c: u8)
    requires
        sorted(l),
        0 <= pos < l.len(),
    ensures
        sorted(l.update(pos, (l[pos].0, c))),
        as_map(l.update(pos, (l[pos].0, c))) == as_map(l).insert(l[pos].0, c),
{
    let after = l.update(pos, (l[pos].0, c));
    assert forall|i: int, j: int| 0 <= i < j < after.len() implies key_less(
        #[trigger] after[i].0,
        #[trigger] after[j].0,
    ) by {
        assert(after[i].0 == l[i].0 && after[j].0 == l[j].0);
    }
    lemma_as_map_entries(l);
    lemma_sorted_distinct(l);
    let m = as_map(l).insert(l[pos].0, c);
    assert forall|i: int| 0 <= i < after.len() implies m.contains_key(#[trigger] after[i].0)
        && m[after[i].0] == after[i].1 by {
        assert(after[i].0 == l[i].0);
    }
    assert forall|k: Seq<char>| #[trigger] m.contains_key(k) implies has_key(after, k) by {
        if k == l[pos].0 {
            assert(after[pos].0 == k);
        } else {
            let i = index_of(l, k);
            assert(after[i].0 == k);
        }
    }
    lemma_as_map_is(after, m);
}

/// Putting a new key at its place in the order adds it to the map.
pub proof fn lemma_insert(l: Seq<Entry>, pos: int, k: Seq<char>, c: u8)
    requires
        sorted(l),
        0 <= pos <= l.len(),
        forall|i: int| 0 <= i < pos ==> key_less(#[trigger] l[i].0, k),
        forall|i: int| pos <= i < l.len() ==> key_less(k, #[trigger] l[i].0),
    ensures
        sorted(l.insert(pos, (k, c))),
        as_map(l.insert(pos, (k, c))) == as_map(l).insert(k, c),
{
    let after = l.insert(pos, (k, c));
    assert forall|i: int, j: int| 0 <= i < j < after.len() implies key_less(
        #[trigger] after[i].0,
        #[trigger] after[j].0,
    ) by {
        if j < pos {
            assert(after[i] == l[i] && after[j] == l[j]);
        } else if j == pos {
            assert(after[i] == l[i]);
        } else if i == pos {
            assert(after[j] == l[j - 1]);
        } else if i < pos {
            assert(after[i] == l[i] && after[j] == l[j - 1]);
        } else {
            assert(after[i] == l[i - 1] && after[j] == l[j - 1]);
        }
    }
    lemma_as_map_entries(l);
    let m = as_map(l).insert(k, c);
    assert forall|i: int| 0 <= i < after.len() implies m.contains_key(#[trigger] after[i].0)
        && m[after[i].0] == after[i].1 by {
        if i < pos {
            assert(after[i] == l[i]);
            lemma_key_less_irreflexive(k);
        } else if i > pos {
            assert(after[i] == l[i - 1]);
            lemma_key_less_irreflexive(k);
        }
    }
    assert forall|x: Seq<char>| #[trigger] m.contains_key(x) implies has_key(after, x) by {
        if x == k {
            assert(after[pos].0 == x);
        } else {
            let i = index_of(l, x);
            if i < pos {
                assert(after[i].0 == x);
            } else {
                assert(after[i + 1].0 == x);
            }
        }
    }
    lemma_as_map_is(after, m);
}

/// Taking one position out takes its key out of the map.
pub proof fn lemma_remove(l: Seq<Entry>, pos: int)
    requires
        sorted(l),
        0 <= pos < l.len(),
    ensures
        sorted(l.remove(pos)),
        as_map(l.remove(pos)) == as_map(l).remove(l[pos].0),
{
    let after = l.remove(pos);
    assert forall|i: int, j: int| 0 <= i < j < after.len() implies key_less(
        #[trigger] after[i].0,
        #[trigger] after[j].0,
    ) by {
        let i0 = if i < pos { i } else { i + 1 };
        let j0 = if j < pos { j } else { j + 1 };
        assert(after[i] == l[i0] && after[j] == l[j0]);
    }
    lemma_as_map_entries(l);
    lemma_sorted_distinct(l);
    let m = as_map(l).remove(l[pos].0);
    assert forall|i: int| 0 <= i < after.len() implies m.contains_key(#[trigger] after[i].0)
        && m[after[i].0] == after[i].1 by {
        let i0 = if i < pos { i } else { i + 1 };
        assert(after[i] == l[i0]);
    }
    assert forall|x: Seq<char>| #[trigger] m.contains_key(x) implies has_key(after, x) by {
        let i = index_of(l, x);
        if i < pos {
            assert(after[i].0 == x);
        } else {
            assert(after[i - 1].0 == x);
        }
    }
    lemma_as_map_is(after, m);
}

/// `k` is the key that a table with the entries `m` hands out first: none has
/// a smaller priority, and among the keys of that priority `k` comes first in
/// key order.
pub open spec fn is_first(m: Map<Seq<char>, u8>, k: Seq<char>) -> bool {
    &&& m.contains_key(k)
    &&& forall|x: Seq<char>| #[trigger]
        m.contains_key(x) && x != k ==> m[k] < m[x] || (m[k] == m[x] && key_less(k, x))
}

/// At most one key is handed out first.
pub proof fn lemma_first_unique(m: Map<Seq<char>, u8>, a: Seq<char>, b: Seq<char>)
    requires
        is_first(m, a),
        is_first(m, b),
    ensures
        a == b,
{
    if a != b {
        assert(m.contains_key(a) && m.contains_key(b));
        crate::key_order::lemma_key_less_asymmetric(a, b);
    }
}

/// The map that results from putting the entries of `s` into an empty table
/// one after the other: of two entries with the same key the later one stays.
pub open spec fn collect(s: Seq<Entry>) -> Map<Seq<char>, u8>
    decreases s.len(),
{
    if s.len() == 0 {
        Map::empty()
    } else {
        collect(s.drop_last()).insert(s.last().0, s.last().1)
    }
}

/// Collecting a sorted listing gives the map that the listing stands for.
pub proof fn lemma_collect_sorted(l: Seq<Entry>)
    requires
        sorted(l),
    ensures
        collect(l) == as_map(l),
    decreases l.len(),
{
    if l.len() == 0 {
        assert(as_map(l) =~= Map::<Seq<char>, u8>::empty());
    } else {
        let front = l.drop_last();
        let last = l.last();
        assert(sorted(front)) by {
            assert forall|i: int, j: int| 0 <= i < j < front.len() implies key_less(
                #[trigger] front[i].0,
                #[trigger] front[j].0,
            ) by {
                assert(front[i] == l[i] && front[j] == l[j]);
            }
        }
        lemma_collect_sorted(front);
        assert forall|i: int| 0 <= i < front.len() implies key_less(
            #[trigger] front[i].0,
            last.0,
        ) by {
            assert(front[i] == l[i]);
            assert(key_less(l[i].0, l[l.len() - 1].0));
        }
        lemma_insert(front, front.len() as int, last.0, last.1);
        assert(front.insert(front.len() as int, last) =~= l);
    }
}

/// How many entries of the listing have been handled at least once: those
/// whose priority is not zero.
pub open spec fn covered_in(l: Seq<Entry>) -> nat
    decreases l.len(),
{
    if l.len() == 0 {
        0
    } else {
        covered_in(l.drop_last()) + (if l.last().1 != 0 {
            1nat
        } else {
            0nat
        })
    }
}

} // verus!
