//! What travels between the flashing engine and a serial link.

use crate::fota::protocol::{Heartbeat, NackCode};
use vstd::prelude::*;

verus! {

/// A decoded acknowledgement frame.
#[derive(Clone, Copy, Debug, PartialEq, Eq, Structural)]
pub struct Ack {
    pub code: NackCode,
    pub datagram_id: u32,
    pub src_node: u16,
}

/// The heartbeat frames heard in a listening window, each with the node it came from.
pub type DiscoveryAnswers = Vec<(u16, Heartbeat)>;

} // verus!
