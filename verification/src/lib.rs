//! Conflict detection for calendar bookings.
//!
//! A booking is an [`Event`]: a half-open range of time on one timeline.
//! A batch of bookings has a conflict when two of them share a moment.
//! Two detectors answer that question, each in its own way:
//! [`array_solution::BookingSystem`] sorts the batch and walks it once,
//! [`btreemap_solution::BookingSystem`] books one event after the other into
//! an ordered calendar. Both are held to the same contract,
//! [`conflict::is_verdict`], and [`ConflictDetector`] is the interface they
//! share.

use vstd::prelude::*;

pub mod array_solution;
pub mod btreemap_solution;
pub mod conflict;
pub mod laws;
pub mod rearrange;

verus! {

/// A booking that occupies the time from `start` up to, but not including,
/// `end`.
///
/// A booking is meant to have `start < end`; nothing enforces it, and the
/// detectors say in their contracts what they owe when it does not hold.
#[derive(Debug, Clone, Copy, PartialEq, Eq, Structural)]
pub struct Event {
    pub start: i32,
    pub end: i32,
}

impl Event {
    /// The booking from `start` to `end`.
    pub fn new(start: i32, end: i32) -> (event: Self)
        ensures
            event.start == start,
            event.end == end,
    {
        Self { start, end }
    }
}

/// What every detector can do: say whether a batch of bookings has a
/// conflict.
pub trait ConflictDetector {
    /// Says whether two bookings of `events` overlap.
    fn check(&self, events: Vec<Event>) -> (conflict: bool)
        ensures
            conflict::is_verdict(events@, conflict),
    ;
}

impl ConflictDetector for array_solution::BookingSystem {
    fn check(&self, events: Vec<Event>) -> (conflict: bool) {
        self.check_events(events)
    }
}

impl ConflictDetector for btreemap_solution::BookingSystem {
    fn check(&self, events: Vec<Event>) -> (conflict: bool) {
        self.check_events(events)
    }
}

} // verus!
