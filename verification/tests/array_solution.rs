use calendar_conflicts::array_solution::BookingSystem;
use calendar_conflicts::Event;

#[test]
fn array_solution_test_success() {
    let system = BookingSystem::new();

    let events = vec![Event::new(10, 15), Event::new(20, 25)];

    assert_eq!(system.check_events(events), false);
}

#[test]
fn array_solution_test_fail() {
    let system = BookingSystem::new();

    let events = vec![Event::new(10, 15), Event::new(20, 25), Event::new(15, 30)];

    assert_eq!(system.check_events(events), true);
}

#[test]
fn array_solution_test_edge() {
    let system = BookingSystem::new();

    let events = vec![Event::new(10, 15), Event::new(20, 25), Event::new(15, 20)];

    assert_eq!(system.check_events(events), false);
}

#[test]
fn array_solution_test_same_start() {
    let system = BookingSystem::new();

    let events = vec![Event::new(10, 15), Event::new(10, 15)];

    assert_eq!(system.check_events(events), true);
}

#[test]
fn array_solution_empty_batch() {
    let system = BookingSystem::new();

    assert_eq!(system.check_events(Vec::new()), false);
}

#[test]
fn array_solution_single_booking() {
    let system = BookingSystem::new();

    assert_eq!(system.check_events(vec![Event::new(3, 4)]), false);
}

// A walk over the batch as given would take the later booking for the
// earlier one and report a conflict.
#[test]
fn array_solution_sorts_before_walking() {
    let system = BookingSystem::new();

    let events = vec![Event::new(20, 25), Event::new(10, 15)];

    assert_eq!(system.check_events(events), false);
}

#[test]
fn array_solution_descending_batch_without_conflict() {
    let system = BookingSystem::new();

    let events = vec![
        Event::new(40, 50),
        Event::new(30, 40),
        Event::new(20, 30),
        Event::new(10, 20),
        Event::new(0, 10),
    ];

    assert_eq!(system.check_events(events), false);
}

#[test]
fn array_solution_conflict_between_far_positions() {
    let system = BookingSystem::new();

    let events = vec![
        Event::new(40, 50),
        Event::new(0, 10),
        Event::new(20, 30),
        Event::new(60, 70),
        Event::new(49, 55),
    ];

    assert_eq!(system.check_events(events), true);
}

#[test]
fn array_solution_nested_booking() {
    let system = BookingSystem::new();

    let events = vec![Event::new(0, 100), Event::new(40, 50)];

    assert_eq!(system.check_events(events), true);
}

#[test]
fn array_solution_same_start_other_end() {
    let system = BookingSystem::new();

    let events = vec![Event::new(10, 12), Event::new(10, 30)];

    assert_eq!(system.check_events(events), true);
}

#[test]
fn array_solution_widest_bookings() {
    let system = BookingSystem::new();

    let apart = vec![Event::new(0, i32::MAX), Event::new(i32::MIN, 0)];
    assert_eq!(system.check_events(apart), false);

    let colliding = vec![Event::new(i32::MAX - 1, i32::MAX), Event::new(i32::MIN, i32::MAX)];
    assert_eq!(system.check_events(colliding), true);
}

// Bookings that end no later than they begin are answered too. Where no
// booking begins while another is running, the answer is `false`.
#[test]
fn array_solution_improper_bookings_without_intrusion() {
    let system = BookingSystem::new();

    let events = vec![Event::new(5, 1), Event::new(7, 2), Event::new(9, 9)];

    assert_eq!(system.check_events(events), false);
}

#[test]
fn array_solution_one_detector_many_calls() {
    let system = BookingSystem::new();

    assert_eq!(system.check_events(vec![Event::new(1, 5), Event::new(4, 6)]), true);
    assert_eq!(system.check_events(vec![Event::new(1, 5), Event::new(5, 6)]), false);
    assert_eq!(system.check_events(vec![Event::new(1, 5), Event::new(4, 6)]), true);
}
