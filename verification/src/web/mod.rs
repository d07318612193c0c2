//! The boundary between WebAssembly and the page that hosts it.

pub mod answers;
pub mod codec;
pub mod engine;
pub mod events;
pub mod exec;
pub mod host;
pub mod request;
