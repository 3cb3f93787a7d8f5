//! Vehicle telemetry client: the decoding, displaying, replaying and flashing logic.

pub mod bytes;
pub mod cells;
pub mod clock;
pub mod config;
pub mod dashboard;
pub mod decoder;
pub mod fota;
pub mod labels;
pub mod number;
pub mod readout;
pub mod replay;
pub mod rounding;
pub mod session;
pub mod settings;
pub mod signal_table;
pub mod store;
pub mod text;
