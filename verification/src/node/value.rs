//! Reporting a failed runtime call.

use vstd::prelude::*;
use crate::node::napi::{napi_status, NAPI_OK};
use crate::text::{decimal_text, push_signed_decimal, push_str};

verus! {

/// A JavaScript exception, carried back to the call that caused it.
#[derive(Debug, Clone, PartialEq, Eq)]
pub struct Thrown(pub String);

/// The message for a call named `what` that returned `status`.
pub open spec fn failure_text(what: Seq<char>, status: int) -> Seq<char> {
    what + " failed (napi status "@ + decimal_text(status) + ")"@
}

/// Check a status, naming what failed: success exactly when the status is
/// `NAPI_OK`, otherwise an exception that names the call and the status.
pub fn ok(status: napi_status, what: &str) -> (r: Result<(), Thrown>)
    ensures
        status == NAPI_OK ==> r is Ok,
        status != NAPI_OK ==> (r matches Err(t) && t.0@ == failure_text(what@, status as int)),
{
    if status == NAPI_OK {
        Ok(())
    } else {
        let mut message = String::new();
        push_str(&mut message, what);
        push_str(&mut message, " failed (napi status ");
        push_signed_decimal(&mut message, status as i64);
        push_str(&mut message, ")");
        Err(Thrown(message))
    }
}

} // verus!
