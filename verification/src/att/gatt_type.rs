//! GATT's own attribute types.

use vstd::prelude::*;

verus! {

pub const PRIMARY_SERVICE: u16 = 0x2800;
pub const SECONDARY_SERVICE: u16 = 0x2801;
pub const INCLUDE: u16 = 0x2802;
pub const CHARACTERISTIC: u16 = 0x2803;
pub const CLIENT_CHARACTERISTIC_CONFIGURATION: u16 = 0x2902;

} // verus!
