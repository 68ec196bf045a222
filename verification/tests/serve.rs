use sito::serve::{AfterFailure, Meter, Patience, Slots, MAX_ACCEPT_FAILURES};

#[test]
fn slots_are_capped() {
    let mut slots = Slots::new(2);
    assert!(slots.acquire());
    assert!(slots.acquire());
    assert!(!slots.acquire());
    assert_eq!(slots.in_use(), 2);
    slots.release();
    assert_eq!(slots.in_use(), 1);
    assert!(slots.acquire());
    assert!(!slots.acquire());
}

#[test]
fn a_cap_below_one_is_one() {
    let mut slots = Slots::new(0);
    assert!(slots.acquire());
    assert!(!slots.acquire());
}

#[test]
fn a_hundred_failures_in_a_row_are_too_many() {
    let mut patience = Patience::new();
    for _ in 0..MAX_ACCEPT_FAILURES - 1 {
        assert_eq!(patience.failed(), AfterFailure::Retry);
    }
    patience.accepted();
    for _ in 0..MAX_ACCEPT_FAILURES - 1 {
        assert_eq!(patience.failed(), AfterFailure::Retry);
    }
    assert_eq!(patience.failed(), AfterFailure::GiveUp(100));
}

#[test]
fn a_complete_transfer_counts() {
    let mut meter = Meter::new();
    meter.read(64, 30);
    meter.read(64, 7);
    assert_eq!(meter.bytes(), 37);
    assert_eq!(meter.finish(5), None);
    meter.read(64, 0);
    assert_eq!(meter.finish(5), Some(37));
    assert_eq!(meter.finish(0), None);
}

#[test]
fn an_empty_transfer_does_not_count() {
    let mut meter = Meter::new();
    meter.read(64, 0);
    assert_eq!(meter.finish(5), None);
}

#[test]
fn a_read_into_no_room_does_not_end_a_body() {
    let mut meter = Meter::new();
    meter.read(3, 3);
    meter.read(0, 0);
    assert_eq!(meter.finish(5), None);
    meter.read(3, 3);
    meter.read(3, 0);
    assert_eq!(meter.finish(5), Some(6));
}

#[test]
fn the_cap_holds_through_a_run() {
    let mut slots = Slots::new(3);
    let mut waiting = 0;
    let mut ended = 0;
    for _ in 0..10 {
        if !slots.acquire() {
            waiting += 1;
        }
        assert!(slots.in_use() <= 3);
    }
    assert_eq!((slots.in_use(), waiting), (3, 7));
    while slots.in_use() > 0 {
        slots.release();
        ended += 1;
        if waiting > 0 {
            assert!(slots.acquire());
            waiting -= 1;
        }
        assert!(slots.in_use() <= 3);
    }
    assert_eq!((waiting, ended), (0, 10));
}
