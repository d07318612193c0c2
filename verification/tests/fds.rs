//! Descriptors passed beside D-Bus messages.

use bluewire::dbus::fds::{align, Pending, RawFd};

#[test]
fn control_messages_are_word_aligned() {
    let word = std::mem::size_of::<usize>();
    assert_eq!(align(1), word);
    assert_eq!(align(word), word);
    assert_eq!(align(word + 1), word * 2);
}

#[test]
fn a_message_takes_only_what_it_declared() {
    let mut pending = Pending::default();
    pending.push(&[10, 11, 12]);
    assert_eq!(pending.len(), 3);

    assert_eq!(pending.take(0), Vec::<RawFd>::new(), "a message with none");
    assert_eq!(pending.take(1), vec![10], "takes from the front");
    assert_eq!(pending.take(2), vec![11, 12]);
    assert!(pending.is_empty());

    // Asking for more than arrived yields what there is rather than
    // hanging for something the peer is not going to send.
    assert_eq!(pending.take(4), Vec::<RawFd>::new());
    assert!(pending.is_empty());
}

/// Order is the whole basis for matching descriptors to messages.
#[test]
fn descriptors_come_out_in_the_order_they_arrived() {
    let mut pending = Pending::default();
    pending.push(&[1, 2]);
    pending.push(&[3]);
    assert_eq!(pending.take(3), vec![1, 2, 3]);
    assert!(pending.is_empty());
}

#[test]
fn draining_hands_back_everything_unclaimed() {
    let mut pending = Pending::new();
    pending.push(&[4, 5]);
    let _ = pending.take(1);
    pending.push(&[6]);
    assert_eq!(pending.drain(), vec![5, 6]);
    assert!(pending.is_empty());
}
