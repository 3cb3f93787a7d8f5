//! Decoding of the telemetry stream into signal readings.

pub mod can_config;
pub mod decode;
pub mod faults;
pub mod frame;
