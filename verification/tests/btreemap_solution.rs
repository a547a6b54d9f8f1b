use calendar_conflicts::btreemap_solution::BookingSystem;
use calendar_conflicts::Event;

#[test]
fn btreemap_solution_test_success() {
    let system = BookingSystem::new();

    let events = vec![Event::new(10, 15), Event::new(20, 25)];

    assert_eq!(system.check_events(events), false);
}

#[test]
fn btreemap_solution_test_fail() {
    let system = BookingSystem::new();

    let events = vec![Event::new(10, 15), Event::new(20, 25), Event::new(15, 30)];

    assert_eq!(system.check_events(events), true);
}

#[test]
fn btreemap_solution_test_edge() {
    let system = BookingSystem::new();

    let events = vec![Event::new(10, 15), Event::new(20, 25), Event::new(15, 20)];

    assert_eq!(system.check_events(events), false);
}

#[test]
fn btreemap_solution_test_same_start() {
    let system = BookingSystem::new();

    let events = vec![Event::new(10, 15), Event::new(10, 15)];

    assert_eq!(system.check_events(events), true);
}

#[test]
fn btreemap_solution_empty_batch() {
    let system = BookingSystem::new();

    assert_eq!(system.check_events(Vec::new()), false);
}

#[test]
fn btreemap_solution_single_booking() {
    let system = BookingSystem::new();

    assert_eq!(system.check_events(vec![Event::new(3, 4)]), false);
}

// The last booking collides with the entry that starts latest before it,
// and with no other. The first entry of the calendar would not show it.
#[test]
fn btreemap_solution_asks_nearest_predecessor() {
    let system = BookingSystem::new();

    let events = vec![Event::new(0, 1), Event::new(2, 10), Event::new(5, 6)];

    assert_eq!(system.check_events(events), true);
}

// The last booking collides with the entry that starts earliest after it,
// and with no other. The last entry of the calendar would not show it.
#[test]
fn btreemap_solution_asks_nearest_successor() {
    let system = BookingSystem::new();

    let events = vec![Event::new(10, 11), Event::new(20, 21), Event::new(5, 12)];

    assert_eq!(system.check_events(events), true);
}

// An entry that starts where the booking starts is its successor, not its
// predecessor.
#[test]
fn btreemap_solution_same_start_other_end() {
    let system = BookingSystem::new();

    let events = vec![Event::new(10, 30), Event::new(10, 12)];

    assert_eq!(system.check_events(events), true);
}

// An entry that starts where the booking ends is no conflict, and neither is
// one that ends where the booking starts.
#[test]
fn btreemap_solution_touching_on_both_sides() {
    let system = BookingSystem::new();

    let events = vec![Event::new(0, 5), Event::new(10, 15), Event::new(5, 10)];

    assert_eq!(system.check_events(events), false);
}

#[test]
fn btreemap_solution_booking_below_all_entries() {
    let system = BookingSystem::new();

    let apart = vec![Event::new(10, 20), Event::new(30, 40), Event::new(0, 10)];
    assert_eq!(system.check_events(apart), false);

    let colliding = vec![Event::new(10, 20), Event::new(30, 40), Event::new(0, 11)];
    assert_eq!(system.check_events(colliding), true);
}

#[test]
fn btreemap_solution_booking_above_all_entries() {
    let system = BookingSystem::new();

    let apart = vec![Event::new(10, 20), Event::new(30, 40), Event::new(40, 50)];
    assert_eq!(system.check_events(apart), false);

    let colliding = vec![Event::new(10, 20), Event::new(30, 40), Event::new(39, 50)];
    assert_eq!(system.check_events(colliding), true);
}

#[test]
fn btreemap_solution_nested_booking() {
    let system = BookingSystem::new();

    let events = vec![Event::new(40, 50), Event::new(0, 100)];

    assert_eq!(system.check_events(events), true);
}

#[test]
fn btreemap_solution_widest_bookings() {
    let system = BookingSystem::new();

    let apart = vec![Event::new(0, i32::MAX), Event::new(i32::MIN, 0)];
    assert_eq!(system.check_events(apart), false);

    let colliding = vec![Event::new(i32::MAX - 1, i32::MAX), Event::new(i32::MIN, i32::MAX)];
    assert_eq!(system.check_events(colliding), true);
}

// Bookings that end no later than they begin are answered too. Where no
// booking begins while another is running, the answer is `false`.
#[test]
fn btreemap_solution_improper_bookings_without_intrusion() {
    let system = BookingSystem::new();

    let events = vec![Event::new(5, 1), Event::new(7, 2), Event::new(9, 9)];

    assert_eq!(system.check_events(events), false);
}

#[test]
fn btreemap_solution_one_detector_many_calls() {
    let system = BookingSystem::new();

    assert_eq!(system.check_events(vec![Event::new(1, 5), Event::new(4, 6)]), true);
    assert_eq!(system.check_events(vec![Event::new(1, 5), Event::new(5, 6)]), false);
    assert_eq!(system.check_events(vec![Event::new(1, 5), Event::new(4, 6)]), true);
}
