//! Host side knobs of the gateway serial link.

use vstd::prelude::*;

verus! {

/// The gateway serial link and how long it is waited for.
#[derive(Debug, PartialEq)]
pub struct FotaConfig {
    pub serial_port: String,
    pub serial_baud: u32,
    /// How long one wait for an acknowledgement lasts, in milliseconds.
    pub ack_timeout_ms: u64,
    /// How long a node stays listed after its last announce, in milliseconds.
    pub discovery_window_ms: u64,
    pub retries: u32,
}

impl Default for FotaConfig {
    fn default() -> (cfg: Self)
        ensures
            cfg.serial_port@ == "COM9"@,
            cfg.serial_baud == 230_400,
            cfg.ack_timeout_ms == 1000,
            cfg.discovery_window_ms == 3000,
            cfg.retries == 5,
    {
        Self {
            serial_port: "COM9".to_owned(),
            serial_baud: 230_400,
            ack_timeout_ms: 1000,
            discovery_window_ms: 3000,
            retries: 5,
        }
    }
}

impl Clone for FotaConfig {
    fn clone(&self) -> (cfg: Self)
        ensures
            cfg == *self,
    {
        Self {
            serial_port: self.serial_port.clone(),
            serial_baud: self.serial_baud,
            ack_timeout_ms: self.ack_timeout_ms,
            discovery_window_ms: self.discovery_window_ms,
            retries: self.retries,
        }
    }
}

} // verus!
