//! Laws of conflict detection, proved of the model in [`crate::conflict`].
//!
//! Both detectors promise [`is_verdict`] of their answer, so whatever is
//! proved here of verdicts and of [`has_conflict`] holds of either detector.

use crate::conflict::{
    all_proper, has_conflict, has_intrusion, is_proper, is_verdict,
    lemma_overlaps_is_starting_inside, overlaps, starts_inside,
};
use crate::rearrange::{is_rearrangement, lemma_item_in_rearrangement, lemma_pair_in_rearrangement};
use crate::Event;
use vstd::prelude::*;

verus! {

/// A batch of proper bookings has one verdict only: two detectors that both
/// keep their contract give the same answer on it.
pub proof fn lemma_verdict_is_unique(batch: Seq<Event>, first: bool, second: bool)
    requires
        all_proper(batch),
        is_verdict(batch, first),
        is_verdict(batch, second),
    ensures
        first == second,
        first == has_conflict(batch),
{
}

/// In a batch of proper bookings, two of them overlap exactly when one of
/// them begins while another is running.
pub proof fn lemma_conflict_is_intrusion(batch: Seq<Event>)
    requires
        all_proper(batch),
    ensures
        has_conflict(batch) == has_intrusion(batch),
{
    if has_conflict(batch) {
        let (i, j) = choose|i: int, j: int|
            0 <= i < j < batch.len() && overlaps(#[trigger] batch[i], #[trigger] batch[j]);
        lemma_overlaps_is_starting_inside(batch[i], batch[j]);
        if starts_inside(batch[j], batch[i]) {
            assert(has_intrusion(batch));
        } else {
            assert(starts_inside(batch[i], batch[j]));
            assert(has_intrusion(batch));
        }
    }
    if has_intrusion(batch) {
        let (i, j) = choose|i: int, j: int|
            0 <= i < batch.len() && 0 <= j < batch.len() && i != j && starts_inside(
                #[trigger] batch[j],
                #[trigger] batch[i],
            );
        lemma_overlaps_is_starting_inside(batch[i], batch[j]);
        if i < j {
            assert(overlaps(batch[i], batch[j]));
        } else {
            assert(overlaps(batch[j], batch[i]));
        }
    }
}

/// A conflict of `a` is found again in every rearrangement of `a`.
proof fn lemma_conflict_carries_over(a: Seq<Event>, b: Seq<Event>)
    requires
        is_rearrangement(a, b),
        has_conflict(a),
    ensures
        has_conflict(b),
{
    let (i, j) = choose|i: int, j: int|
        0 <= i < j < a.len() && overlaps(#[trigger] a[i], #[trigger] a[j]);
    let p = lemma_pair_in_rearrangement(a, b, i, j);
    if p.0 < p.1 {
        assert(overlaps(b[p.0], b[p.1]));
    } else {
        assert(overlaps(b[p.1], b[p.0]));
    }
}

/// An intrusion in `a` is found again in every rearrangement of `a`.
proof fn lemma_intrusion_carries_over(a: Seq<Event>, b: Seq<Event>)
    requires
        is_rearrangement(a, b),
        has_intrusion(a),
    ensures
        has_intrusion(b),
{
    let (i, j) = choose|i: int, j: int|
        0 <= i < a.len() && 0 <= j < a.len() && i != j && starts_inside(
            #[trigger] a[j],
            #[trigger] a[i],
        );
    let p = lemma_pair_in_rearrangement(a, b, i, j);
    assert(starts_inside(b[p.1], b[p.0]));
}

/// Where every booking of `a` is proper, so is every booking of a
/// rearrangement of `a`.
proof fn lemma_proper_carries_over(a: Seq<Event>, b: Seq<Event>)
    requires
        is_rearrangement(a, b),
        all_proper(a),
    ensures
        all_proper(b),
{
    assert forall|k: int| 0 <= k < b.len() implies is_proper(#[trigger] b[k]) by {
        let p = lemma_item_in_rearrangement(b, a, k);
        assert(is_proper(a[p]));
    }
}

/// The order of a batch does not matter: a batch and a rearrangement of it
/// have the same conflicts, and every verdict on one is a verdict on the
/// other.
pub proof fn lemma_order_does_not_matter(a: Seq<Event>, b: Seq<Event>)
    requires
        is_rearrangement(a, b),
    ensures
        all_proper(a) == all_proper(b),
        has_conflict(a) == has_conflict(b),
        has_intrusion(a) == has_intrusion(b),
        forall|conflict: bool| is_verdict(a, conflict) == is_verdict(b, conflict),
{
    if all_proper(a) {
        lemma_proper_carries_over(a, b);
    }
    if all_proper(b) {
        lemma_proper_carries_over(b, a);
    }
    if has_conflict(a) {
        lemma_conflict_carries_over(a, b);
    }
    if has_conflict(b) {
        lemma_conflict_carries_over(b, a);
    }
    if has_intrusion(a) {
        lemma_intrusion_carries_over(a, b);
    }
    if has_intrusion(b) {
        lemma_intrusion_carries_over(b, a);
    }
}

/// A proper booking that occurs twice in a batch is a conflict.
pub proof fn lemma_duplicate_is_conflict(batch: Seq<Event>, i: int, j: int)
    requires
        0 <= i < j < batch.len(),
        batch[i] == batch[j],
        is_proper(batch[i]),
    ensures
        has_conflict(batch),
{
    assert(overlaps(batch[i], batch[j]));
}

/// Two bookings that touch, the one ending at `b` where the other begins, are
/// no conflict, in either order.
pub proof fn lemma_touching_is_no_conflict(a: i32, b: i32, c: i32)
    requires
        a < b < c,
    ensures
        !has_conflict(seq![Event { start: a, end: b }, Event { start: b, end: c }]),
        !has_conflict(seq![Event { start: b, end: c }, Event { start: a, end: b }]),
{
}

/// A booking that begins at `b`, while the booking from `a` to `d` is
/// running, is a conflict with it wherever it ends, in either order.
pub proof fn lemma_strict_overlap_is_conflict(a: i32, b: i32, c: i32, d: i32)
    requires
        a <= b < d,
        b < c,
    ensures
        has_conflict(seq![Event { start: a, end: d }, Event { start: b, end: c }]),
        has_conflict(seq![Event { start: b, end: c }, Event { start: a, end: d }]),
{
    let first = seq![Event { start: a, end: d }, Event { start: b, end: c }];
    assert(overlaps(first[0], first[1]));
    let second = seq![Event { start: b, end: c }, Event { start: a, end: d }];
    assert(overlaps(second[0], second[1]));
}

/// A batch with a conflict keeps it when one more booking joins, wherever in
/// the batch it is put.
pub proof fn lemma_conflict_survives_extension(batch: Seq<Event>, x: Event, extended: Seq<Event>)
    requires
        has_conflict(batch),
        is_rearrangement(batch.push(x), extended),
    ensures
        has_conflict(extended),
{
    let (i, j) = choose|i: int, j: int|
        0 <= i < j < batch.len() && overlaps(#[trigger] batch[i], #[trigger] batch[j]);
    let pushed = batch.push(x);
    assert(overlaps(pushed[i], pushed[j]));
    lemma_conflict_carries_over(pushed, extended);
}

/// The empty batch has no conflict, and neither has a batch of one booking.
pub proof fn lemma_fewer_than_two_is_no_conflict(batch: Seq<Event>)
    requires
        batch.len() <= 1,
    ensures
        !has_conflict(batch),
        !has_intrusion(batch),
        is_verdict(batch, false),
        !is_verdict(batch, true),
{
}

} // verus!
