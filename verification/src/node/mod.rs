//! What a Node.js addon decides on its own: when the event loop must be held
//! open, and how a failed runtime call is reported.

pub mod emit;
pub mod napi;
pub mod value;
