//! The message codec between Rust and the page.

use bluewire::web::codec::{Reader, Writer};

#[test]
fn every_type_survives_a_round_trip() {
    let mut w = Writer::new();
    w.u8(0xAB)
        .u16(0xBEEF)
        .u32(0xDEAD_BEEF)
        .bool(true)
        .bool(false)
        .bytes(&[1, 2, 3])
        .str("héllo")
        .option_str(Some("here"))
        .option_str(None);
    let buffer = w.finish();

    let mut r = Reader::new(&buffer);
    assert_eq!(r.u8(), Some(0xAB));
    assert_eq!(r.u16(), Some(0xBEEF));
    assert_eq!(r.u32(), Some(0xDEAD_BEEF));
    assert_eq!(r.bool(), Some(true));
    assert_eq!(r.bool(), Some(false));
    assert_eq!(r.bytes(), Some(vec![1, 2, 3]));
    assert_eq!(r.str().as_deref(), Some("héllo"));
    assert_eq!(r.option_str(), Some(Some("here".into())));
    assert_eq!(r.option_str(), Some(None));
    assert!(r.is_empty(), "the whole message should have been consumed");
}

#[test]
fn lists_round_trip() {
    let mut w = Writer::new();
    w.list(&["a", "bb", "ccc"], |w, s| {
        w.str(s);
    });
    let buffer = w.finish();

    let mut r = Reader::new(&buffer);
    assert_eq!(
        r.list(|r| r.str()),
        Some(vec!["a".to_owned(), "bb".to_owned(), "ccc".to_owned()])
    );
    assert!(r.is_empty());
}

#[test]
fn reading_past_the_end_is_none_rather_than_a_panic() {
    let mut r = Reader::new(&[]);
    assert_eq!(r.u8(), None);
    assert_eq!(r.u32(), None);
    assert_eq!(r.bytes(), None);
    assert_eq!(r.str(), None);

    // A length prefix that runs off the end.
    let mut r = Reader::new(&[0xFF, 0xFF, 0xFF, 0xFF]);
    assert_eq!(r.bytes(), None);

    // Truncated mid-value.
    let mut r = Reader::new(&[1, 2]);
    assert_eq!(r.u32(), None);
}

#[test]
fn an_enormous_count_fails_instead_of_allocating() {
    let mut w = Writer::new();
    w.u32(u32::MAX);
    let buffer = w.finish();
    let mut r = Reader::new(&buffer);
    assert_eq!(r.list(|r| r.u8()), None);
}

#[test]
fn a_short_read_leaves_the_message_unconsumed() {
    let mut w = Writer::new();
    w.u32(7).u32(9);
    let buffer = w.finish();
    let mut r = Reader::new(&buffer);
    assert_eq!(r.u32(), Some(7));
    assert!(!r.is_empty(), "one field is still pending");
}
