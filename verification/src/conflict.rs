//! What a conflict is: the mathematical model that the detectors are held to.
//!
//! A batch is modelled as a `Seq<Event>`. Its order carries no meaning, and
//! [`crate::laws`] proves that none of the notions below depends on it.

use crate::Event;
use vstd::prelude::*;

verus! {

/// `e` occupies at least one moment: it begins before it ends.
pub open spec fn is_proper(e: Event) -> bool {
    e.start < e.end
}

/// Every booking of the batch is proper.
pub open spec fn all_proper(batch: Seq<Event>) -> bool {
    forall|i: int| 0 <= i < batch.len() ==> is_proper(#[trigger] batch[i])
}

/// `a` and `b` share a moment: the later of the two starts lies before the
/// earlier of the two ends. Bookings that only touch, one ending where the
/// other begins, do not overlap.
pub open spec fn overlaps(a: Event, b: Event) -> bool {
    vstd::math::max(a.start as int, b.start as int) < vstd::math::min(a.end as int, b.end as int)
}

/// `later` begins while `earlier` is running: at or after its start and
/// strictly before its end.
pub open spec fn starts_inside(later: Event, earlier: Event) -> bool {
    earlier.start <= later.start < earlier.end
}

/// Two bookings at different positions of the batch overlap.
pub open spec fn has_conflict(batch: Seq<Event>) -> bool {
    exists|i: int, j: int| 0 <= i < j < batch.len() && overlaps(#[trigger] batch[i], #[trigger] batch[j])
}

/// Some booking of the batch begins while another one, at a different
/// position, is running.
pub open spec fn has_intrusion(batch: Seq<Event>) -> bool {
    exists|i: int, j: int|
        0 <= i < batch.len() && 0 <= j < batch.len() && i != j && starts_inside(
            #[trigger] batch[j],
            #[trigger] batch[i],
        )
}

/// What a detector owes for `batch` when it answers `conflict`.
///
/// On a batch of proper bookings the answer says exactly whether two of them
/// overlap. On any batch at all, a reported conflict is no false alarm out of
/// nothing: some booking does begin while another is running.
pub open spec fn is_verdict(batch: Seq<Event>, conflict: bool) -> bool {
    &&& all_proper(batch) ==> conflict == has_conflict(batch)
    &&& conflict ==> has_intrusion(batch)
}

/// Between proper bookings, to overlap is for one of them to begin while the
/// other is running.
pub proof fn lemma_overlaps_is_starting_inside(a: Event, b: Event)
    requires
        is_proper(a),
        is_proper(b),
    ensures
        overlaps(a, b) <==> starts_inside(a, b) || starts_inside(b, a),
{
}

} // verus!
