//! Firmware updates over the gateway serial link.

pub mod client;
pub mod config;
pub mod delivery;
pub mod fields;
pub mod image;
pub mod names;
pub mod nodes;
pub mod protocol;
pub mod serial;
pub mod shared;
pub mod tab;
pub mod transport;
pub mod worker;
