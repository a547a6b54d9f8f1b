//! The sort-scan detector: order the batch by start, then walk it once.

use crate::conflict::{all_proper, has_conflict, has_intrusion, is_verdict, overlaps, starts_inside};
use crate::laws::{lemma_conflict_is_intrusion, lemma_order_does_not_matter};
use crate::rearrange::is_rearrangement;
use crate::Event;
use std::cmp::Ordering;
use vstd::prelude::*;

verus! {

/// No booking of `batch` starts before one that stands earlier in it.
pub open spec fn is_sorted_by_start(batch: Seq<Event>) -> bool {
    forall|i: int, j: int|
        0 <= i < j < batch.len() ==> (#[trigger] batch[i]).start <= (#[trigger] batch[j]).start
}

/// The bookings of `batch` that start at `start`, in the order in which the
/// batch holds them.
pub open spec fn starting_at(batch: Seq<Event>, start: i32) -> Seq<Event> {
    batch.filter(|e: Event| e.start == start)
}

/// Each booking of `batch` but the first starts no earlier than the one
/// before it ends.
pub open spec fn neighbours_apart(batch: Seq<Event>) -> bool {
    forall|k: int| 0 < k < batch.len() ==> batch[k - 1].end <= (#[trigger] batch[k]).start
}

/// Orders two bookings by their starts alone.
fn compare_starts(a: &Event, b: &Event) -> (order: Ordering)
    ensures
        order == Ordering::Less <==> a.start < b.start,
        order == Ordering::Equal <==> a.start == b.start,
        order == Ordering::Greater <==> a.start > b.start,
{
    a.start.cmp(&b.start)
}

/// Sorts the bookings by start with `sort_by` of std's slices, which orders
/// its items by the comparison it is given and is stable.
///
/// Unproved: that afterwards the vector holds the same bookings as before,
/// that none starts before one that stands earlier, and that bookings with
/// the same start have kept the order they had among themselves.
#[verifier::external_body]
fn sort_by_start(events: &mut Vec<Event>)
    ensures
        is_rearrangement(old(events)@, final(events)@),
        is_sorted_by_start(final(events)@),
        forall|start: i32| #[trigger]
            starting_at(final(events)@, start) == starting_at(old(events)@, start),
{
    events.sort_by(|a, b| compare_starts(a, b));
}

/// Where, once the batch is sorted by start, a booking starts before its left
/// neighbour has ended, the only verdict on the batch is a conflict.
proof fn lemma_neighbours_collide(batch: Seq<Event>, sorted: Seq<Event>, k: int)
    requires
        is_rearrangement(batch, sorted),
        is_sorted_by_start(sorted),
        0 < k < sorted.len(),
        sorted[k - 1].end > sorted[k].start,
    ensures
        is_verdict(batch, true),
{
    assert(starts_inside(sorted[k], sorted[k - 1]));
    assert(has_intrusion(sorted));
    lemma_order_does_not_matter(batch, sorted);
    if all_proper(batch) {
        lemma_conflict_is_intrusion(sorted);
    }
}

/// Where, once the batch is sorted by start, all neighbours are apart, no
/// two bookings of the batch overlap.
proof fn lemma_neighbours_apart(batch: Seq<Event>, sorted: Seq<Event>)
    requires
        is_rearrangement(batch, sorted),
        is_sorted_by_start(sorted),
        neighbours_apart(sorted),
    ensures
        !has_conflict(batch),
{
    assert forall|i: int, j: int| 0 <= i < j < sorted.len() implies !overlaps(
        #[trigger] sorted[i],
        #[trigger] sorted[j],
    ) by {
        assert(sorted[i].end <= sorted[i + 1].start);
        assert(sorted[i + 1].start <= sorted[j].start);
    }
    lemma_order_does_not_matter(batch, sorted);
}

/// The sort-scan detector. It keeps no state between calls.
pub struct BookingSystem {}

impl BookingSystem {
    /// A detector.
    pub fn new() -> Self {
        Self {}
    }

    /// Says whether two bookings of `events` overlap.
    ///
    /// Sorts the batch by start and compares each booking's start with the
    /// end of the booking before it. A conflict between any two bookings is
    /// always reported, proper or not.
    pub fn check_events(&self, events: Vec<Event>) -> (conflict: bool)
        ensures
            is_verdict(events@, conflict),
            has_conflict(events@) ==> conflict,
    {
        let mut sorted = events;
        sort_by_start(&mut sorted);
        let mut prev_end: Option<i32> = None;
        let mut i: usize = 0;
        while i < sorted.len()
            invariant
                i <= sorted.len(),
                is_rearrangement(events@, sorted@),
                is_sorted_by_start(sorted@),
                i == 0 ==> prev_end is None,
                i > 0 ==> prev_end == Some(sorted@[i - 1].end),
                forall|k: int| 0 < k < i ==> sorted@[k - 1].end <= (#[trigger] sorted@[k]).start,
            decreases sorted.len() - i,
        {
            let event = sorted[i];
            if let Some(prev_end_value) = prev_end {
                if prev_end_value > event.start {
                    proof {
                        lemma_neighbours_collide(events@, sorted@, i as int);
                    }
                    return true;
                }
            }
            prev_end = Some(event.end);
            i += 1;
        }
        proof {
            lemma_neighbours_apart(events@, sorted@);
        }
        false
    }
}

} // verus!
