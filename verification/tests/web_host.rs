//! The numbers both sides agree on, and requests in flight.

use bluewire::web::host::{
    answer_from, pending_count, EventKind, HostError, Op, Pending, PendingTable,
};

#[test]
fn error_codes_map_both_ways() {
    for (code, expected) in [
        (0, HostError::Unknown),
        (1, HostError::NotFound),
        (2, HostError::Security),
        (3, HostError::Network),
        (4, HostError::InvalidState),
        (5, HostError::NotSupported),
        (6, HostError::InvalidModification),
        (7, HostError::Abort),
        (8, HostError::NotAllowed),
        (77, HostError::Unknown),
    ] {
        assert_eq!(HostError::from_u32(code), expected);
    }
}

#[test]
fn event_kinds_map_and_reject_the_unknown() {
    assert_eq!(EventKind::from_u32(1), Some(EventKind::CharacteristicValue));
    assert_eq!(EventKind::from_u32(5), Some(EventKind::AvailabilityChanged));
    assert_eq!(EventKind::from_u32(0), None);
    assert_eq!(EventKind::from_u32(99), None);
}

#[test]
fn a_request_completes_when_the_host_settles_it() {
    let mut table: PendingTable<u32> = PendingTable::new();
    let mut woken = 0;

    let mut future = Pending::start(&mut table, 700);
    assert_eq!(future.poll(&mut table, 1), None);
    assert_eq!(woken, 0);

    if table.settle(700, answer_from(0, vec![1, 2, 3])).is_some() {
        woken += 1;
    }
    assert_eq!(woken, 1, "settling must wake");

    assert_eq!(future.poll(&mut table, 1), Some(Ok(vec![1, 2, 3])));
}

#[test]
fn an_error_comes_back_as_the_name_the_browser_threw() {
    let mut table: PendingTable<u32> = PendingTable::new();
    let mut future = Pending::start(&mut table, 701);
    let _ = future.poll(&mut table, 1);
    let _ = table.settle(701, answer_from(HostError::Security.code(), Vec::new()));

    assert_eq!(future.poll(&mut table, 1), Some(Err(HostError::Security)));
}

/// Settling before anyone polls must not lose the answer.
#[test]
fn settling_before_the_first_poll_still_delivers() {
    let mut table: PendingTable<u32> = PendingTable::new();
    let mut future = Pending::start(&mut table, 702);
    assert_eq!(table.settle(702, answer_from(0, vec![9])), None);
    assert_eq!(future.poll(&mut table, 1), Some(Ok(vec![9])));
}

/// A dropped request must not leave its entry behind.
#[test]
fn dropping_a_request_removes_it() {
    let mut table: PendingTable<u32> = PendingTable::new();
    let before = pending_count(&table);
    {
        let future = Pending::start(&mut table, 703);
        assert_eq!(pending_count(&table), before + 1);
        future.release(&mut table);
    }
    assert_eq!(pending_count(&table), before, "the entry should be gone");
}

/// A completed request must not be left registered either.
#[test]
fn a_completed_request_leaves_nothing_behind() {
    let mut table: PendingTable<u32> = PendingTable::new();
    let before = pending_count(&table);
    let mut future = Pending::start(&mut table, 704);
    let _ = future.poll(&mut table, 1);
    let _ = table.settle(704, answer_from(0, Vec::new()));
    let _ = future.poll(&mut table, 1);
    future.release(&mut table);
    assert_eq!(pending_count(&table), before);
}

/// The host is not trusted to settle each token once.
#[test]
fn settling_an_unknown_token_is_ignored() {
    let mut table: PendingTable<u32> = PendingTable::new();
    let before = pending_count(&table);
    assert_eq!(table.settle(999_999, answer_from(0, Vec::new())), None);
    table.cancel(999_999);
    assert_eq!(pending_count(&table), before);
}

#[test]
fn polling_a_token_nobody_registered_is_an_error_not_a_hang() {
    let mut table: PendingTable<u32> = PendingTable::new();
    assert_eq!(table.poll(5, 1), Some(Err(HostError::Unknown)));
}

#[test]
fn a_taken_answer_is_not_given_twice() {
    let mut table: PendingTable<u32> = PendingTable::new();
    let mut future = Pending::start(&mut table, 9);
    let _ = table.settle(9, answer_from(0, vec![4]));
    assert_eq!(future.poll(&mut table, 1), Some(Ok(vec![4])));
    assert_eq!(future.poll(&mut table, 1), None);
}

#[test]
fn a_second_poll_replaces_the_waker() {
    let mut table: PendingTable<u32> = PendingTable::new();
    let mut future = Pending::start(&mut table, 12);
    assert_eq!(future.poll(&mut table, 1), None);
    assert_eq!(future.poll(&mut table, 2), None);
    assert_eq!(table.settle(12, answer_from(3, Vec::new())), Some(2));
    assert_eq!(future.poll(&mut table, 2), Some(Err(HostError::Network)));
}

#[test]
fn operations_travel_as_their_numbers() {
    assert_eq!(Op::Availability.code(), 1);
    assert_eq!(Op::RequestDevice.code(), 2);
    assert_eq!(Op::Connect.code(), 5);
    assert_eq!(Op::SetNotify.code(), 15);
    assert_eq!(Op::SetTimeout.code(), 18);
    assert_eq!(HostError::NotAllowed.code(), 8);
    assert_eq!(EventKind::AvailabilityChanged.code(), 5);
}
