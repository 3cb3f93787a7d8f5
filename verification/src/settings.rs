//! State of the settings tab.

use crate::config::AppConfig;
use crate::text;
use vstd::prelude::*;

verus! {

/// How often the serial ports are looked for, in milliseconds.
pub const SCAN_MS: u64 = 3000;

/// The settings tab. Numbers are held as text so that partial edits are possible.
#[derive(Debug)]
pub struct SettingsTab {
    pub port_list: Vec<String>,
    pub selected_port: String,
    pub baud_str: String,
    pub replay_path_str: String,
    pub status_msg: String,
}

/// The rate that a text writes, or the one there was where it writes none.
pub open spec fn rate_of(s: Seq<char>, before: u32) -> u32 {
    match text::parse_unsigned(text::trimmed(s), u32::MAX as nat) {
        Some(n) => n as u32,
        None => before,
    }
}

/// A path, where one is given.
pub open spec fn shown_path(p: Option<String>) -> Option<Seq<char>> {
    match p {
        Some(s) => Some(s@),
        None => None,
    }
}

/// The path that a field writes, if any.
pub open spec fn path_of(s: Seq<char>) -> Option<Seq<char>> {
    if text::trimmed(s).len() > 0 {
        Some(text::trimmed(s))
    } else {
        None
    }
}

impl SettingsTab {
    /// A tab that shows the settings and the serial ports that were found.
    pub fn new(cfg: &AppConfig, ports: Vec<String>) -> (tab: Self)
        ensures
            tab.port_list == ports,
            tab.selected_port@ == cfg.com_port@,
            tab.baud_str@ == text::decimal(cfg.baud_rate as nat),
            tab.replay_path_str@ == match cfg.replay_file_path {
                Some(p) => p@,
                None => Seq::empty(),
            },
            tab.status_msg@.len() == 0,
    {
        Self {
            port_list: ports,
            selected_port: cfg.com_port.clone(),
            baud_str: text::decimal_text(cfg.baud_rate as u64),
            replay_path_str: match &cfg.replay_file_path {
                Some(p) => p.clone(),
                None => String::new(),
            },
            status_msg: String::new(),
        }
    }

    /// Writes the fields into the settings. A rate that is no number leaves the rate as it is.
    pub fn apply_to_config(&self, cfg: &mut AppConfig)
        ensures
            final(cfg).com_port@ == self.selected_port@,
            final(cfg).baud_rate == rate_of(self.baud_str@, old(cfg).baud_rate),
            final(cfg).can_yaml_path == old(cfg).can_yaml_path,
            shown_path(final(cfg).replay_file_path) == path_of(self.replay_path_str@),
    {
        cfg.com_port = self.selected_port.clone();
        let chars = text::chars_of(self.baud_str.as_str());
        match text::read_unsigned(text::trim(chars.as_slice()), u32::MAX as u64) {
            Some(n) => {
                cfg.baud_rate = n as u32;
            },
            None => {},
        }
        cfg.replay_file_path = self.replay_path();
    }

    /// The path of the recording, if any is given.
    pub fn replay_path(&self) -> (path: Option<String>)
        ensures
            shown_path(path) == path_of(self.replay_path_str@),
    {
        if text::is_blank(self.replay_path_str.as_str()) {
            None
        } else {
            Some(text::trim_text(self.replay_path_str.as_str()))
        }
    }

    /// Tells whether the settings could be saved.
    pub fn saved(&mut self, error: Option<&str>)
        ensures
            final(self).status_msg@ == match error {
                None => "Settings saved."@,
                Some(e) => "Save failed: "@ + e@,
            },
            final(self).port_list == old(self).port_list,
            final(self).selected_port == old(self).selected_port,
            final(self).baud_str == old(self).baud_str,
            final(self).replay_path_str == old(self).replay_path_str,
    {
        match error {
            None => {
                self.status_msg = "Settings saved.".to_owned();
            },
            Some(e) => {
                let mut msg = "Save failed: ".to_owned();
                msg.append(e);
                self.status_msg = msg;
            },
        }
    }
}

/// Whether the serial ports are to be looked for, the given time after they last were.
pub fn scan_due(elapsed_ms: u64) -> (yes: bool)
    ensures
        yes == (elapsed_ms >= SCAN_MS),
{
    elapsed_ms >= SCAN_MS
}

/// Settings that a form was opened with are what it writes, where no white space surrounds the
/// path of the recording.
pub proof fn law_unedited_form_keeps_the_settings(rate: u32, before: u32, path: Option<Seq<char>>)
    requires
        path is Some ==> path->0.len() > 0 && text::trimmed(path->0) == path->0,
    ensures
        rate_of(text::decimal(rate as nat), before) == rate,
        path_of(
            match path {
                Some(p) => p,
                None => Seq::empty(),
            },
        ) == path,
{
    text::lemma_trimmed_decimal_reads_back(rate as nat, u32::MAX as nat);
}

/// A rate that is no number leaves the rate as it was, and a blank path is none.
pub proof fn law_bad_entries_change_nothing(s: Seq<char>, before: u32)
    ensures
        text::parse_unsigned(text::trimmed(s), u32::MAX as nat) is None ==> rate_of(s, before)
            == before,
        path_of(s) is None <==> text::trimmed(s).len() == 0,
        path_of(s) is Some ==> path_of(s)->0 == text::trimmed(s),
        shown_path(None) is None,
{
}

} // verus!
