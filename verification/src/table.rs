//! The priority table: for each image key, how often the image has been
//! handled, kept so that the least handled image is found first.

use vstd::prelude::*;
use crate::key_order::{key_less, lemma_key_less_total, lemma_key_less_transitive, str_less};
use crate::listing::{
    as_map, collect, covered_in, is_first, lemma_as_map_entries, lemma_as_map_len,
    lemma_collect_sorted, lemma_insert, lemma_remove, lemma_sorted_distinct, lemma_update, sorted,
    Entry,
};

verus! {

/// The entries of a vector of pairs, each key taken as its sequence of
/// characters.
pub open spec fn entries_view(v: Seq<(String, u8)>) -> Seq<Entry> {
    Seq::new(v.len(), |i: int| (v[i].0@, v[i].1))
}

/// A table from image key to priority. No key occurs twice.
#[derive(Clone, Debug)]
pub struct WITTable {
    keys: Vec<String>,
    counts: Vec<u8>,
}

impl View for WITTable {
    type V = Map<Seq<char>, u8>;

    /// The table as a map from key to priority.
    open spec fn view(&self) -> Map<Seq<char>, u8> {
        as_map(self.listing())
    }
}

impl WITTable {
    /// The entries of the table in the order in which it keeps them.
    pub closed spec fn listing(&self) -> Seq<Entry> {
        Seq::new(self.keys.len() as nat, |i: int| (self.keys[i]@, self.counts[i]))
    }

    /// The table is well formed: its listing is in strictly increasing key
    /// order, so that no key occurs twice.
    pub closed spec fn wf(&self) -> bool {
        &&& self.keys.len() == self.counts.len()
        &&& sorted(self.listing())
    }

    /// A well-formed table lists its entries in strictly increasing key order.
    pub proof fn lemma_listing_sorted(self)
        requires
            self.wf(),
        ensures
            sorted(self.listing()),
    {
    }

    /// A table with the given entries. Where a key occurs more than once,
    /// its last entry stays.
    pub fn new(entries: Vec<(String, u8)>) -> (t: WITTable)
        ensures
            t.wf(),
            t@ == collect(entries_view(entries@)),
    {
        let mut t = WITTable { keys: Vec::new(), counts: Vec::new() };
        let ghost all = entries_view(entries@);
        proof {
            assert(t.listing() =~= Seq::<Entry>::empty());
            assert(t@ =~= Map::<Seq<char>, u8>::empty());
        }
        let n = entries.len();
        let mut i: usize = 0;
        while i < n
            invariant
                i <= n,
                n == entries.len(),
                all == entries_view(entries@),
                t.wf(),
                t@ == collect(all.take(i as int)),
            decreases n - i,
        {
            proof {
                let next = all.take(i + 1);
                assert(next.drop_last() =~= all.take(i as int));
                assert(next.last() == all[i as int]);
            }
            t.push(entries[i].0.as_str(), entries[i].1);
            i += 1;
        }
        proof {
            assert(all.take(n as int) =~= all);
        }
        t
    }

    /// The entries of the table in increasing key order.
    pub fn entries(&self) -> (r: Vec<(String, u8)>)
        requires
            self.wf(),
        ensures
            entries_view(r@) == self.listing(),
            sorted(entries_view(r@)),
            collect(entries_view(r@)) == self@,
    {
        let mut out: Vec<(String, u8)> = Vec::new();
        let n = self.keys.len();
        let mut i: usize = 0;
        while i < n
            invariant
                i <= n,
                n == self.keys.len(),
                n == self.counts.len(),
                out.len() == i,
                forall|j: int|
                    0 <= j < i ==> (#[trigger] out[j]).0@ == self.keys[j]@ && out[j].1
                        == self.counts[j],
            decreases n - i,
        {
            out.push((self.keys[i].clone(), self.counts[i]));
            i += 1;
        }
        proof {
            assert(entries_view(out@) =~= self.listing());
            lemma_collect_sorted(self.listing());
        }
        out
    }

    /// No key occurs twice in a well-formed table, and the table has as many
    /// entries as keys.
    pub proof fn lemma_keys_unique(self)
        requires
            self.wf(),
        ensures
            forall|i: int, j: int|
                0 <= i < j < self.listing().len() ==> #[trigger] self.listing()[i].0
                    != #[trigger] self.listing()[j].0,
            self@.dom().finite(),
            self@.dom().len() == self.listing().len(),
    {
        lemma_sorted_distinct(self.listing());
        lemma_as_map_len(self.listing());
    }

    /// The number of images that have been handled at least once.
    pub fn covered(&self) -> (r: usize)
        requires
            self.wf(),
        ensures
            r == covered_in(self.listing()),
    {
        let ghost l = self.listing();
        let n = self.counts.len();
        let mut r: usize = 0;
        let mut i: usize = 0;
        while i < n
            invariant
                i <= n,
                n == self.counts.len(),
                n == self.keys.len(),
                l == self.listing(),
                r == covered_in(l.take(i as int)),
                r <= i,
            decreases n - i,
        {
            proof {
                assert(l.take(i + 1).drop_last() =~= l.take(i as int));
                assert(l.take(i + 1).last() == l[i as int]);
            }
            if self.counts[i] != 0 {
                r += 1;
            }
            i += 1;
        }
        proof {
            assert(l.take(n as int) =~= l);
        }
        r
    }

    /// Where `key` stands in the table, or where it would have to be put.
    fn position(&self, key: &str) -> (r: (usize, bool))
        requires
            self.wf(),
        ensures
            r.0 <= self.listing().len(),
            forall|i: int| 0 <= i < r.0 ==> key_less(#[trigger] self.listing()[i].0, key@),
            forall|i: int|
                r.0 <= i < self.listing().len() ==> !key_less(
                    #[trigger] self.listing()[i].0,
                    key@,
                ),
            r.1 == (r.0 < self.listing().len() && self.listing()[r.0 as int].0 == key@),
            r.1 == self@.contains_key(key@),
    {
        let ghost l = self.listing();
        let mut lo: usize = 0;
        let mut hi: usize = self.keys.len();
        while lo < hi
            invariant
                self.wf(),
                l == self.listing(),
                lo <= hi <= l.len(),
                l.len() == self.keys.len(),
                forall|i: int| 0 <= i < lo ==> key_less(#[trigger] l[i].0, key@),
                forall|i: int| hi <= i < l.len() ==> !key_less(#[trigger] l[i].0, key@),
            decreases hi - lo,
        {
            let mid: usize = lo + (hi - lo) / 2;
            if str_less(self.keys[mid].as_str(), key) {
                assert forall|i: int| 0 <= i < mid + 1 implies key_less(
                    #[trigger] l[i].0,
                    key@,
                ) by {
                    if i < mid {
                        lemma_key_less_transitive(l[i].0, l[mid as int].0, key@);
                    }
                }
                lo = mid + 1;
            } else {
                assert forall|i: int| mid <= i < l.len() implies !key_less(
                    #[trigger] l[i].0,
                    key@,
                ) by {
                    if mid < i && key_less(l[i].0, key@) {
                        lemma_key_less_transitive(l[mid as int].0, l[i].0, key@);
                    }
                }
                hi = mid;
            }
        }
        let found = lo < self.keys.len() && !str_less(key, self.keys[lo].as_str());
        proof {
            lemma_as_map_entries(l);
            if lo < l.len() {
                lemma_key_less_total(l[lo as int].0, key@);
                crate::key_order::lemma_key_less_irreflexive(key@);
            }
            if self@.contains_key(key@) {
                let j = crate::listing::index_of(l, key@);
                crate::key_order::lemma_key_less_irreflexive(key@);
                if j != lo {
                    if j < lo {
                        assert(key_less(l[j].0, key@));
                    } else {
                        assert(key_less(l[lo as int].0, l[j].0));
                        assert(!key_less(l[lo as int].0, key@));
                    }
                }
            }
        }
        (lo, found)
    }

    /// Puts `filename` into the table with priority `cnt`. An entry that the
    /// table already has for `filename` is replaced.
    pub fn push(&mut self, filename: &str, cnt: u8)
        requires
            old(self).wf(),
        ensures
            final(self).wf(),
            final(self)@ == old(self)@.insert(filename@, cnt),
    {
        let (pos, found) = self.position(filename);
        let ghost before = self.listing();
        if found {
            self.counts[pos] = cnt;
            proof {
                assert(self.listing() =~= before.update(pos as int, (before[pos as int].0, cnt)));
                lemma_update(before, pos as int, cnt);
            }
        } else {
            self.keys.insert(pos, filename.to_owned());
            self.counts.insert(pos, cnt);
            proof {
                assert(self.listing() =~= before.insert(pos as int, (filename@, cnt)));
                assert forall|i: int| pos <= i < before.len() implies key_less(
                    filename@,
                    #[trigger] before[i].0,
                ) by {
                    lemma_as_map_entries(before);
                    lemma_key_less_total(before[i].0, filename@);
                }
                lemma_insert(before, pos as int, filename@, cnt);
            }
        }
    }

    /// Takes out the entry that is due first: one of least priority and,
    /// among those, the one whose key comes first. `None` if and only if the
    /// table is empty.
    pub fn pop(&mut self) -> (r: Option<(String, u8)>)
        requires
            old(self).wf(),
        ensures
            final(self).wf(),
            match r {
                None => old(self)@ == Map::<Seq<char>, u8>::empty() && final(self)@ == old(self)@,
                Some(e) => is_first(old(self)@, e.0@) && e.1 == old(self)@[e.0@] && final(self)@
                    == old(self)@.remove(e.0@),
            },
    {
        let n = self.keys.len();
        let ghost l = self.listing();
        proof {
            lemma_as_map_entries(l);
        }
        if n == 0 {
            assert(self@ =~= Map::<Seq<char>, u8>::empty());
            return None;
        }
        let mut best: usize = 0;
        let mut i: usize = 1;
        while i < n
            invariant
                self.wf(),
                l == self.listing(),
                n == self.keys.len(),
                n == self.counts.len(),
                best < i <= n,
                forall|j: int| 0 <= j < i ==> self.counts[best as int] <= #[trigger] self.counts[j],
                forall|j: int|
                    0 <= j < best ==> self.counts[best as int] < #[trigger] self.counts[j],
            decreases n - i,
        {
            if self.counts[i] < self.counts[best] {
                best = i;
            }
            i += 1;
        }
        proof {
            let k = l[best as int].0;
            assert forall|x: Seq<char>| #[trigger] self@.contains_key(x) && x != k implies self@[k]
                < self@[x] || (self@[k] == self@[x] && key_less(k, x)) by {
                let j = crate::listing::index_of(l, x);
                assert(l[j].1 == self.counts[j]);
                assert(l[best as int].1 == self.counts[best as int]);
                if j > best {
                    assert(key_less(l[best as int].0, l[j].0));
                }
            }
            lemma_remove(l, best as int);
        }
        let key = self.keys.remove(best);
        let cnt = self.counts.remove(best);
        assert(self.listing() =~= l.remove(best as int));
        Some((key, cnt))
    }

    /// Lowers the priority of every entry by one. No entry may stand at
    /// priority zero.
    pub fn decrease_all_cnt(&mut self)
        requires
            old(self).wf(),
            forall|k: Seq<char>| #[trigger] old(self)@.contains_key(k) ==> old(self)@[k] >= 1,
        ensures
            final(self).wf(),
            final(self)@.dom() == old(self)@.dom(),
            forall|k: Seq<char>| #[trigger]
                old(self)@.contains_key(k) ==> final(self)@[k] == old(self)@[k] - 1,
    {
        let ghost l = self.listing();
        let n = self.counts.len();
        proof {
            lemma_as_map_entries(l);
            assert forall|j: int| 0 <= j < n implies (#[trigger] l[j]).1 >= 1 by {
                assert(self@.contains_key(l[j].0));
            }
        }
        let mut i: usize = 0;
        while i < n
            invariant
                i <= n,
                n == self.counts.len(),
                n == self.keys.len(),
                l.len() == n,
                sorted(l),
                forall|j: int| 0 <= j < n ==> (#[trigger] self.keys[j])@ == l[j].0,
                forall|j: int| 0 <= j < i ==> #[trigger] self.counts[j] == l[j].1 - 1,
                forall|j: int| i <= j < n ==> #[trigger] self.counts[j] == l[j].1,
                forall|j: int| 0 <= j < n ==> (#[trigger] l[j]).1 >= 1,
            decreases n - i,
        {
            let c = self.counts[i];
            assert(l[i as int].1 >= 1);
            self.counts[i] = c - 1;
            i += 1;
        }
        proof {
            let after = self.listing();
            assert(sorted(after)) by {
                assert forall|a: int, b: int| 0 <= a < b < after.len() implies key_less(
                    #[trigger] after[a].0,
                    #[trigger] after[b].0,
                ) by {
                    assert(after[a].0 == l[a].0 && after[b].0 == l[b].0);
                    assert(key_less(l[a].0, l[b].0));
                }
            }
            lemma_as_map_entries(after);
            assert(as_map(after).dom() =~= as_map(l).dom()) by {
                assert forall|k: Seq<char>| as_map(after).dom().contains(k) implies as_map(
                    l,
                ).dom().contains(k) by {
                    let j = crate::listing::index_of(after, k);
                    assert(after[j].0 == l[j].0);
                }
                assert forall|k: Seq<char>| as_map(l).dom().contains(k) implies as_map(
                    after,
                ).dom().contains(k) by {
                    let j = crate::listing::index_of(l, k);
                    assert(after[j].0 == l[j].0);
                }
            }
            assert forall|k: Seq<char>| #[trigger] as_map(l).contains_key(k) implies as_map(
                after,
            )[k] == as_map(l)[k] - 1 by {
                let j = crate::listing::index_of(l, k);
                assert(after[j].0 == l[j].0);
                assert(after[j].1 == self.counts[j]);
            }
        }
    }

    /// Puts `filename` into the table with `priority` unless the table
    /// already holds it; says whether it was put in.
    pub fn insert_if_absent(&mut self, filename: &str, priority: u8) -> (added: bool)
        requires
            old(self).wf(),
        ensures
            final(self).wf(),
            added == !old(self)@.contains_key(filename@),
            added ==> final(self)@ == old(self)@.insert(filename@, priority),
            !added ==> final(self)@ == old(self)@,
    {
        if self.contains(filename) {
            false
        } else {
            self.push(filename, priority);
            true
        }
    }

    /// The priority of `filename`, if the table holds it.
    pub fn get(&self, filename: &str) -> (r: Option<u8>)
        requires
            self.wf(),
        ensures
            r == (if self@.contains_key(filename@) {
                Some(self@[filename@])
            } else {
                None
            }),
    {
        let (pos, found) = self.position(filename);
        if found {
            proof {
                lemma_as_map_entries(self.listing());
            }
            Some(self.counts[pos])
        } else {
            None
        }
    }

    /// Puts every entry of `other` into the table. An entry that the table
    /// already has for one of those keys is replaced.
    pub fn merge(&mut self, other: &WITTable)
        requires
            old(self).wf(),
            other.wf(),
        ensures
            final(self).wf(),
            final(self)@ == old(self)@.union_prefer_right(other@),
    {
        let ghost start = self@;
        let ghost l = other.listing();
        let n = other.keys.len();
        let mut i: usize = 0;
        proof {
            assert(collect(l.take(0)) =~= Map::<Seq<char>, u8>::empty());
            assert(self@ =~= start.union_prefer_right(collect(l.take(0))));
        }
        while i < n
            invariant
                i <= n,
                n == other.keys.len(),
                other.wf(),
                l == other.listing(),
                self.wf(),
                self@ == start.union_prefer_right(collect(l.take(i as int))),
            decreases n - i,
        {
            proof {
                let next = l.take(i + 1);
                assert(next.drop_last() =~= l.take(i as int));
                assert(next.last() == l[i as int]);
                assert(start.union_prefer_right(collect(l.take(i as int))).insert(
                    l[i as int].0,
                    l[i as int].1,
                ) =~= start.union_prefer_right(collect(next)));
            }
            self.push(other.keys[i].as_str(), other.counts[i]);
            i += 1;
        }
        proof {
            assert(l.take(n as int) =~= l);
            lemma_collect_sorted(l);
        }
    }

    /// Whether the table holds `filename`.
    pub fn contains(&self, filename: &str) -> (r: bool)
        requires
            self.wf(),
        ensures
            r == self@.contains_key(filename@),
    {
        self.position(filename).1
    }

    /// The number of entries.
    pub fn len(&self) -> (r: usize)
        requires
            self.wf(),
        ensures
            r == self@.dom().len(),
            self@.dom().finite(),
    {
        proof {
            lemma_as_map_len(self.listing());
        }
        self.keys.len()
    }

    /// Whether the table has no entry.
    pub fn is_empty(&self) -> (r: bool)
        requires
            self.wf(),
        ensures
            r == (self@.dom().len() == 0),
            r == (self@ == Map::<Seq<char>, u8>::empty()),
    {
        proof {
            lemma_as_map_len(self.listing());
            lemma_as_map_entries(self.listing());
            if self.keys.len() == 0 {
                assert(self@ =~= Map::<Seq<char>, u8>::empty());
            }
        }
        self.keys.len() == 0
    }
}

impl Default for WITTable {
    /// The empty table.
    fn default() -> (t: WITTable)
        ensures
            t.wf(),
            t@ == Map::<Seq<char>, u8>::empty(),
    {
        let t = WITTable { keys: Vec::new(), counts: Vec::new() };
        proof {
            assert(t.listing() =~= Seq::<Entry>::empty());
            assert(t@ =~= Map::<Seq<char>, u8>::empty());
        }
        t
    }
}

} // verus!
