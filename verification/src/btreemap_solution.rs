//! The ordered-map detector: book the batch one by one into a calendar kept
//! in order of start, asking each time only for the two nearest neighbours.

use crate::conflict::{all_proper, has_conflict, has_intrusion, is_verdict, overlaps, starts_inside};
use crate::laws::lemma_conflict_is_intrusion;
use crate::Event;
use std::collections::btree_map::Range;
use std::collections::BTreeMap;
use vstd::prelude::*;

verus! {

/// The iterator that `BTreeMap::range` of std returns.
#[verifier::external_type_specification]
#[verifier::external_body]
#[verifier::reject_recursive_types(K)]
#[verifier::reject_recursive_types(V)]
pub struct ExRange<'a, K, V>(Range<'a, K, V>);

/// The entries, as pairs of start and end, that a range over a calendar has
/// yet to hand out, from the lowest start to the highest.
pub uninterp spec fn remaining(range: Range<'_, i32, i32>) -> Seq<(i32, i32)>;

/// `entries` lists, from the lowest start to the highest, exactly the
/// entries of `calendar` whose start is `wanted`.
pub open spec fn lists_entries(
    entries: Seq<(i32, i32)>,
    calendar: Map<i32, i32>,
    wanted: spec_fn(i32) -> bool,
) -> bool {
    &&& forall|i: int, j: int|
        0 <= i < j < entries.len() ==> (#[trigger] entries[i]).0 < (#[trigger] entries[j]).0
    &&& forall|i: int|
        0 <= i < entries.len() ==> {
            &&& wanted((#[trigger] entries[i]).0)
            &&& calendar.contains_pair(entries[i].0, entries[i].1)
        }
    &&& forall|start: i32|
        wanted(start) && #[trigger] calendar.contains_key(start) ==> exists|i: int|
            0 <= i < entries.len() && (#[trigger] entries[i]).0 == start
}

/// `BTreeMap::range` of std with an upper bound only.
///
/// Unproved: that the range holds, in ascending order, the entries of the
/// calendar that start before `start`, and no others.
#[verifier::external_body]
fn range_before<'a>(calendar: &'a BTreeMap<i32, i32>, start: i32) -> (range: Range<'a, i32, i32>)
    ensures
        lists_entries(remaining(range), calendar@, |s: i32| s < start),
{
    calendar.range(..start)
}

/// `BTreeMap::range` of std with a lower bound only.
///
/// Unproved: that the range holds, in ascending order, the entries of the
/// calendar that start at `start` or later, and no others.
#[verifier::external_body]
fn range_from<'a>(calendar: &'a BTreeMap<i32, i32>, start: i32) -> (range: Range<'a, i32, i32>)
    ensures
        lists_entries(remaining(range), calendar@, |s: i32| start <= s),
{
    calendar.range(start..)
}

/// `next` of the iterator `Range`.
///
/// Unproved: that it hands out the first of the remaining entries and leaves
/// the others, and that it returns `None`, and changes nothing, exactly when
/// none remains.
#[verifier::external_body]
fn take_first(range: &mut Range<'_, i32, i32>) -> (entry: Option<(i32, i32)>)
    ensures
        match entry {
            Some(e) => {
                &&& remaining(*old(range)).len() > 0
                &&& e == remaining(*old(range)).first()
                &&& remaining(*final(range)) == remaining(*old(range)).drop_first()
            },
            None => {
                &&& remaining(*old(range)).len() == 0
                &&& remaining(*final(range)) == remaining(*old(range))
            },
        },
{
    range.next().map(|(start, end)| (*start, *end))
}

/// `next_back` of the iterator `Range`.
///
/// Unproved: that it hands out the last of the remaining entries and leaves
/// the others, and that it returns `None`, and changes nothing, exactly when
/// none remains.
#[verifier::external_body]
fn take_last(range: &mut Range<'_, i32, i32>) -> (entry: Option<(i32, i32)>)
    ensures
        match entry {
            Some(e) => {
                &&& remaining(*old(range)).len() > 0
                &&& e == remaining(*old(range)).last()
                &&& remaining(*final(range)) == remaining(*old(range)).drop_last()
            },
            None => {
                &&& remaining(*old(range)).len() == 0
                &&& remaining(*final(range)) == remaining(*old(range))
            },
        },
{
    range.next_back().map(|(start, end)| (*start, *end))
}

/// `entry` is the booking of `calendar` with the latest start before
/// `start`, or `None` where no booking starts before `start`.
pub open spec fn is_predecessor(calendar: Map<i32, i32>, start: i32, entry: Option<(i32, i32)>) -> bool {
    match entry {
        Some((s, e)) => {
            &&& s < start
            &&& calendar.contains_pair(s, e)
            &&& forall|other: i32| #[trigger] calendar.contains_key(other) && other < start ==> other <= s
        },
        None => forall|other: i32| #[trigger] calendar.contains_key(other) ==> start <= other,
    }
}

/// `entry` is the booking of `calendar` with the earliest start at `start`
/// or later, or `None` where every booking starts before `start`.
pub open spec fn is_successor(calendar: Map<i32, i32>, start: i32, entry: Option<(i32, i32)>) -> bool {
    match entry {
        Some((s, e)) => {
            &&& start <= s
            &&& calendar.contains_pair(s, e)
            &&& forall|other: i32| #[trigger] calendar.contains_key(other) && start <= other ==> s <= other
        },
        None => forall|other: i32| #[trigger] calendar.contains_key(other) ==> other < start,
    }
}

/// The booking with the latest start before `start`.
fn predecessor(calendar: &BTreeMap<i32, i32>, start: i32) -> (entry: Option<(i32, i32)>)
    ensures
        is_predecessor(calendar@, start, entry),
{
    let mut earlier = range_before(calendar, start);
    let ghost entries = remaining(earlier);
    let entry = take_last(&mut earlier);
    proof {
        if entry is Some {
            assert forall|other: i32| #[trigger]
                calendar@.contains_key(other) && other < start implies other <= entry.unwrap().0 by {
                let i = choose|i: int| 0 <= i < entries.len() && (#[trigger] entries[i]).0 == other;
                if i < entries.len() - 1 {
                    assert(entries[i].0 < entries[entries.len() - 1].0);
                }
            }
        }
    }
    entry
}

/// The booking with the earliest start at `start` or later.
fn successor(calendar: &BTreeMap<i32, i32>, start: i32) -> (entry: Option<(i32, i32)>)
    ensures
        is_successor(calendar@, start, entry),
{
    let mut later = range_from(calendar, start);
    let ghost entries = remaining(later);
    let entry = take_first(&mut later);
    proof {
        if entry is Some {
            assert forall|other: i32| #[trigger]
                calendar@.contains_key(other) && start <= other implies entry.unwrap().0 <= other by {
                let i = choose|i: int| 0 <= i < entries.len() && (#[trigger] entries[i]).0 == other;
                if 0 < i {
                    assert(entries[0].0 < entries[i].0);
                }
            }
        }
    }
    entry
}

/// What the calendar keeps between two bookings: of two entries, the one
/// that starts earlier has ended when the other begins.
pub open spec fn is_consistent(calendar: Map<i32, i32>) -> bool {
    forall|first: i32, second: i32|
        #[trigger] calendar.contains_key(first) && #[trigger] calendar.contains_key(second) && first
            < second ==> calendar[first] <= second
}

/// Every entry of `calendar` is one of the first `n` bookings of `batch`.
pub open spec fn holds_only(calendar: Map<i32, i32>, batch: Seq<Event>, n: int) -> bool {
    forall|start: i32| #[trigger]
        calendar.contains_key(start) ==> exists|k: int|
            0 <= k < n && (#[trigger] batch[k]).start == start && batch[k].end == calendar[start]
}

/// Each of the first `n` bookings of `batch` is an entry of `calendar`.
pub open spec fn holds_all(calendar: Map<i32, i32>, batch: Seq<Event>, n: int) -> bool {
    forall|k: int| 0 <= k < n ==> calendar.contains_pair((#[trigger] batch[k]).start, batch[k].end)
}

/// What holds of the calendar when the first `n` bookings of `batch` have
/// been booked without a conflict.
pub open spec fn is_booked(calendar: Map<i32, i32>, batch: Seq<Event>, n: int) -> bool {
    &&& 0 <= n <= batch.len()
    &&& is_consistent(calendar)
    &&& holds_only(calendar, batch, n)
    &&& all_proper(batch) ==> holds_all(calendar, batch, n)
    &&& all_proper(batch) ==> !has_conflict(batch.take(n))
}

/// Where a booking begins before its predecessor in the calendar has ended,
/// the only verdict on the batch is a conflict.
proof fn lemma_predecessor_collides(
    calendar: Map<i32, i32>,
    batch: Seq<Event>,
    n: int,
    entry: (i32, i32),
)
    requires
        0 <= n < batch.len(),
        holds_only(calendar, batch, n),
        is_predecessor(calendar, batch[n].start, Some(entry)),
        entry.1 > batch[n].start,
    ensures
        is_verdict(batch, true),
{
    assert(calendar.contains_key(entry.0));
    let k = choose|k: int|
        0 <= k < n && (#[trigger] batch[k]).start == entry.0 && batch[k].end == calendar[entry.0];
    assert(starts_inside(batch[n], batch[k]));
    assert(has_intrusion(batch));
    if all_proper(batch) {
        lemma_conflict_is_intrusion(batch);
    }
}

/// Where a booking ends after its successor in the calendar has begun, the
/// only verdict on the batch is a conflict.
proof fn lemma_successor_collides(
    calendar: Map<i32, i32>,
    batch: Seq<Event>,
    n: int,
    entry: (i32, i32),
)
    requires
        0 <= n < batch.len(),
        holds_only(calendar, batch, n),
        is_successor(calendar, batch[n].start, Some(entry)),
        batch[n].end > entry.0,
    ensures
        is_verdict(batch, true),
{
    assert(calendar.contains_key(entry.0));
    let k = choose|k: int|
        0 <= k < n && (#[trigger] batch[k]).start == entry.0 && batch[k].end == calendar[entry.0];
    assert(starts_inside(batch[k], batch[n]));
    assert(has_intrusion(batch));
    if all_proper(batch) {
        lemma_conflict_is_intrusion(batch);
    }
}

/// `event` collides with neither of its two neighbours in the calendar.
pub open spec fn fits_between(
    event: Event,
    before: Option<(i32, i32)>,
    after: Option<(i32, i32)>,
) -> bool {
    &&& before matches Some(entry) ==> entry.1 <= event.start
    &&& after matches Some(entry) ==> event.end <= entry.0
}

/// Why two neighbours suffice: a booking that collides with neither of them
/// collides with no entry at all, so it can be booked.
proof fn lemma_booking_fits(
    calendar: Map<i32, i32>,
    batch: Seq<Event>,
    n: int,
    before: Option<(i32, i32)>,
    after: Option<(i32, i32)>,
)
    requires
        n < batch.len(),
        is_booked(calendar, batch, n),
        is_predecessor(calendar, batch[n].start, before),
        is_successor(calendar, batch[n].start, after),
        fits_between(batch[n], before, after),
    ensures
        is_booked(calendar.insert(batch[n].start, batch[n].end), batch, n + 1),
{
    let event = batch[n];
    let booked = calendar.insert(event.start, event.end);
    // Every entry that starts before the booking has ended when it begins,
    // and it has ended when any entry that starts no earlier begins.
    assert forall|start: i32| #[trigger] calendar.contains_key(start) implies if start < event.start {
        calendar[start] <= event.start
    } else {
        event.end <= start
    } by {
        if start < event.start {
            assert(before is Some);
            assert(calendar.contains_key(before.unwrap().0));
        } else {
            assert(after is Some);
        }
    }
    assert(is_consistent(booked));
    assert forall|start: i32| #[trigger] booked.contains_key(start) implies exists|k: int|
        0 <= k < n + 1 && (#[trigger] batch[k]).start == start && batch[k].end == booked[start] by {
        if start == event.start {
            assert(batch[n].start == start);
        } else {
            assert(calendar.contains_key(start));
            let k = choose|k: int|
                0 <= k < n && (#[trigger] batch[k]).start == start && batch[k].end == calendar[start];
            assert(batch[k].start == start);
        }
    }
    if all_proper(batch) {
        assert(crate::conflict::is_proper(batch[n]));
        assert forall|k: int| 0 <= k < n + 1 implies booked.contains_pair(
            (#[trigger] batch[k]).start,
            batch[k].end,
        ) by {
            if k < n {
                assert(calendar.contains_pair(batch[k].start, batch[k].end));
                assert(calendar.contains_key(batch[k].start));
            }
        }
        let earlier = batch.take(n);
        let now = batch.take(n + 1);
        assert forall|i: int, j: int| 0 <= i < j < now.len() implies !overlaps(
            #[trigger] now[i],
            #[trigger] now[j],
        ) by {
            if j < n {
                assert(!overlaps(earlier[i], earlier[j]));
            } else {
                assert(calendar.contains_pair(batch[i].start, batch[i].end));
                assert(calendar.contains_key(batch[i].start));
            }
        }
    }
}

/// The ordered-map detector. It keeps no state between calls: the calendar
/// lives for one call.
pub struct BookingSystem {}

impl BookingSystem {
    /// A detector.
    pub fn new() -> Self {
        Self {}
    }

    /// Says whether two bookings of `events` overlap.
    ///
    /// Books them in the order given. Each is held against the entry that
    /// starts last before it and the entry that starts first at or after it;
    /// if it collides with neither, it is booked.
    pub fn check_events(&self, events: Vec<Event>) -> (conflict: bool)
        ensures
            is_verdict(events@, conflict),
    {
        let mut calendar: BTreeMap<i32, i32> = BTreeMap::new();
        let mut i: usize = 0;
        while i < events.len()
            invariant
                is_booked(calendar@, events@, i as int),
            decreases events.len() - i,
        {
            let event = events[i];
            let before = predecessor(&calendar, event.start);
            let after = successor(&calendar, event.start);
            if let Some((_, end)) = before {
                if end > event.start {
                    proof {
                        lemma_predecessor_collides(calendar@, events@, i as int, before.unwrap());
                    }
                    return true;
                }
            }
            if let Some((start_next, _)) = after {
                if event.end > start_next {
                    proof {
                        lemma_successor_collides(calendar@, events@, i as int, after.unwrap());
                    }
                    return true;
                }
            }
            proof {
                lemma_booking_fits(calendar@, events@, i as int, before, after);
            }
            calendar.insert(event.start, event.end);
            i += 1;
        }
        proof {
            assert(events@.take(i as int) == events@);
        }
        false
    }
}

} // verus!
