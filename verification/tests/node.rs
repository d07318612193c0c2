//! What the addon decides on its own.

use bluewire::node::emit::LoopHold;
use bluewire::node::napi::NAPI_OK;
use bluewire::node::value::ok;

#[test]
fn success_is_zero() {
    assert_eq!(NAPI_OK, 0);
}

#[test]
fn method_names_are_nul_terminated_at_compile_time() {
    assert_eq!(c"readValue".to_bytes(), b"readValue");
    assert_eq!(c"readValue".to_bytes_with_nul().last(), Some(&0));
}

/// `NAPI_AUTO_LENGTH` is `usize::MAX`: the runtime's signal to measure a
/// NUL-terminated string itself.
#[test]
fn auto_length_is_the_sentinel_the_runtime_expects() {
    const NAPI_AUTO_LENGTH: usize = usize::MAX;
    assert_eq!(NAPI_AUTO_LENGTH, usize::MAX);
}

/// Every conversion reports a failure rather than returning a value the
/// caller would use as if it had worked.
#[test]
fn a_failing_status_becomes_an_error_naming_the_call() {
    let e = ok(7, "napi_create_string_utf8").unwrap_err();
    assert!(e.0.contains("napi_create_string_utf8"), "{}", e.0);
    assert!(e.0.contains('7'), "the status should be in the message");
    assert!(ok(NAPI_OK, "anything").is_ok());
}

#[test]
fn the_failure_message_is_exact() {
    assert_eq!(
        ok(-3, "napi_get_value_string_utf8").unwrap_err().0,
        "napi_get_value_string_utf8 failed (napi status -3)"
    );
}

/// The loop is held while work is outstanding and released when the last
/// of it lands.
#[test]
fn the_loop_is_released_only_by_the_last_holder() {
    let mut held = LoopHold::default();

    assert!(held.acquire(), "the first hold must reference the loop");
    assert!(!held.acquire(), "the second must not reference it again");
    assert!(!held.acquire());
    assert_eq!(held.outstanding(), 3);

    assert!(!held.release(), "two are still out");
    assert!(!held.release(), "one is still out");
    assert!(held.release(), "the last must release the loop");
    assert_eq!(held.outstanding(), 0);
}

/// A hold whose reference could not be taken has to be put back.
#[test]
fn an_undone_hold_leaves_the_count_where_it_started() {
    let mut held = LoopHold::default();
    assert!(held.acquire());
    held.undo();
    assert_eq!(held.outstanding(), 0);
    // And the next hold is a first hold again, so it references the loop.
    assert!(held.acquire());
}

#[test]
fn a_release_with_nothing_held_wraps_as_the_counter_does() {
    let mut held = LoopHold::default();
    assert!(!held.release());
    assert_eq!(held.outstanding(), usize::MAX);
    assert!(!held.acquire());
    assert_eq!(held.outstanding(), 0);
}
