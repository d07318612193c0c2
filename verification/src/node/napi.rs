//! The few Node-API numbers the addon's own logic depends on.

use vstd::prelude::*;

verus! {

/// A Node-API status code.
#[allow(non_camel_case_types)]
pub type napi_status = i32;

/// The status of a call that succeeded.
pub const NAPI_OK: napi_status = 0;

} // verus!
