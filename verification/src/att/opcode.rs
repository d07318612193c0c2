//! ATT opcodes.

use vstd::prelude::*;

verus! {

pub const ERROR_RESPONSE: u8 = 0x01;
pub const EXCHANGE_MTU_REQUEST: u8 = 0x02;
pub const EXCHANGE_MTU_RESPONSE: u8 = 0x03;
pub const FIND_INFORMATION_REQUEST: u8 = 0x04;
pub const FIND_INFORMATION_RESPONSE: u8 = 0x05;
pub const READ_BY_TYPE_REQUEST: u8 = 0x08;
pub const READ_BY_TYPE_RESPONSE: u8 = 0x09;
pub const READ_REQUEST: u8 = 0x0A;
pub const READ_RESPONSE: u8 = 0x0B;
pub const READ_BLOB_REQUEST: u8 = 0x0C;
pub const READ_BLOB_RESPONSE: u8 = 0x0D;
pub const READ_BY_GROUP_TYPE_REQUEST: u8 = 0x10;
pub const READ_BY_GROUP_TYPE_RESPONSE: u8 = 0x11;
pub const WRITE_REQUEST: u8 = 0x12;
pub const WRITE_RESPONSE: u8 = 0x13;
pub const PREPARE_WRITE_REQUEST: u8 = 0x16;
pub const PREPARE_WRITE_RESPONSE: u8 = 0x17;
pub const EXECUTE_WRITE_REQUEST: u8 = 0x18;
pub const EXECUTE_WRITE_RESPONSE: u8 = 0x19;
pub const WRITE_COMMAND: u8 = 0x52;
pub const HANDLE_VALUE_NOTIFICATION: u8 = 0x1B;
pub const HANDLE_VALUE_INDICATION: u8 = 0x1D;
pub const HANDLE_VALUE_CONFIRMATION: u8 = 0x1E;

} // verus!
