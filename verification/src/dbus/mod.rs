//! D-Bus: the type system, marshalling, message framing, and the descriptors
//! that travel beside messages.

pub mod codec;
pub mod connection;
pub mod fds;
pub mod message;
pub mod message_round_trip;
pub mod round_trip;
pub mod signature;
pub mod value;
