//! Wire formats of a Bluetooth Low Energy stack: ATT PDUs, D-Bus marshalling,
//! HCI advertising reports, Bluetooth addresses, and the message codec that
//! crosses the WebAssembly boundary.

pub mod att;

pub mod bluez;
pub mod bytes;
pub mod dbus;
pub mod gatt;
pub mod hci;
pub mod node;
pub mod peripheral;
pub mod sys;
pub mod text;
pub mod web;
