//! Decisions of the main window: how often it is drawn, what it shows, what it tells.

use crate::text;
use vstd::prelude::*;

verus! {

/// The tabs of the window.
#[derive(Clone, Copy, Debug, PartialEq, Eq, Structural)]
pub enum Tab {
    SignalTable,
    Dashboard,
    Cells,
    Fota,
    Settings,
}

/// How often a playing recording is drawn, in milliseconds.
pub const REPLAY_FRAME_MS: u64 = 16;

/// How often a live signal table is drawn, in milliseconds.
pub const TABLE_FRAME_MS: u64 = 250;

/// How soon the window is to be drawn again, in milliseconds: smoothly while a recording
/// plays, at the pace of the store while the live table is shown. The other tabs keep their
/// own pace.
pub fn frame_delay(replay_playing: bool, connected: bool, tab: Tab) -> (ms: Option<u64>)
    ensures
        ms == (if replay_playing {
            Some(REPLAY_FRAME_MS)
        } else if connected && tab == Tab::SignalTable {
            Some(TABLE_FRAME_MS)
        } else {
            None
        }),
{
    if replay_playing {
        Some(REPLAY_FRAME_MS)
    } else if connected && tab == Tab::SignalTable {
        Some(TABLE_FRAME_MS)
    } else {
        None
    }
}

/// What the signal table tab shows.
#[derive(Clone, Copy, Debug, PartialEq, Eq, Structural)]
pub enum TableSource {
    Replay,
    Live,
    Unavailable,
}

/// What the signal table tab shows: a recording where one is loaded, else the store where it
/// is open.
pub fn table_source(replay_loaded: bool, store_open: bool) -> (source: TableSource)
    ensures
        source == (if replay_loaded {
            TableSource::Replay
        } else if store_open {
            TableSource::Live
        } else {
            TableSource::Unavailable
        }),
{
    if replay_loaded {
        TableSource::Replay
    } else if store_open {
        TableSource::Live
    } else {
        TableSource::Unavailable
    }
}

/// What is told when a serial port could not be opened.
pub fn cannot_open(port: &str, error: &str) -> (out: String)
    ensures
        out@ == "Cannot open "@ + port@ + ": "@ + error@,
{
    let mut out = "Cannot open ".to_owned();
    out.append(port);
    out.append(": ");
    out.append(error);
    out
}

/// What is told when the decoder was connected.
pub fn connected_to(port: &str, baud: u32) -> (out: String)
    ensures
        out@ == "Connected to "@ + port@ + " @ "@ + text::decimal(baud as nat) + " baud"@,
{
    let mut out = "Connected to ".to_owned();
    out.append(port);
    out.append(" @ ");
    text::push_decimal(&mut out, baud as u64);
    out.append(" baud");
    out
}

/// What is told when a recording was loaded, or could not be.
pub fn replay_loaded(path: &str, error: Option<&str>) -> (out: String)
    ensures
        out@ == match error {
            None => "Replay loaded: "@ + path@,
            Some(e) => "Failed to load replay: "@ + e@,
        },
{
    match error {
        None => {
            let mut out = "Replay loaded: ".to_owned();
            out.append(path);
            out
        },
        Some(e) => {
            let mut out = "Failed to load replay: ".to_owned();
            out.append(e);
            out
        },
    }
}

} // verus!
