//! How priorities move when an image has been handled.
//!
//! A priority counts how often an image has been handled and never exceeds
//! `MAX_PRIORITY`. An image that has reached the bound stays there, and every
//! image still waiting moves down by one instead, so that the order among the
//! images is kept and each of them comes up again.

use vstd::prelude::*;
use crate::table::WITTable;

verus! {

/// The greatest priority that an entry is given.
pub const MAX_PRIORITY: u8 = 4;

/// The priority with which an entry is queued again after it was handled at
/// priority `cnt`.
pub open spec fn next_priority(cnt: u8) -> u8 {
    if cnt >= MAX_PRIORITY {
        MAX_PRIORITY
    } else {
        (cnt + 1) as u8
    }
}

/// What becomes of the waiting entries `m` when an entry taken out at priority
/// `cnt` is queued again: if that entry had reached the bound, every waiting
/// entry moves down by one.
pub open spec fn make_room(m: Map<Seq<char>, u8>, cnt: u8) -> Map<Seq<char>, u8> {
    if cnt >= MAX_PRIORITY {
        Map::new(|k: Seq<char>| m.contains_key(k), |k: Seq<char>| (m[k] - 1) as u8)
    } else {
        m
    }
}

impl WITTable {
    /// Advances the priority of an entry that was taken out of this table at
    /// priority `cnt`, which no waiting entry undercuts: moves the waiting
    /// entries as `make_room` says and returns the priority with which the
    /// entry is to be queued again.
    pub fn advance(&mut self, cnt: u8) -> (r: u8)
        requires
            old(self).wf(),
            forall|k: Seq<char>| #[trigger] old(self)@.contains_key(k) ==> old(self)@[k] >= cnt,
        ensures
            final(self).wf(),
            final(self)@ == make_room(old(self)@, cnt),
            r == next_priority(cnt),
    {
        if cnt >= MAX_PRIORITY {
            self.decrease_all_cnt();
            assert(self@ =~= make_room(old(self)@, cnt));
            MAX_PRIORITY
        } else {
            cnt + 1
        }
    }
}

} // verus!
