//! Settings of the application.

use vstd::prelude::*;

verus! {

/// The file that settings are kept in, next to the program.
pub const SETTINGS_FILE: &'static str = "settings.toml";

/// The directory of the sample store, next to the program.
pub const DATA_DIR: &'static str = "data";

/// The file of the sample store.
pub const DB_FILE: &'static str = "decoded_data.sqlite";

/// The file of the dashboard setup, next to the program.
pub const SETUP_FILE: &'static str = "default_setup.json";

/// Settings of the application.
#[derive(Debug)]
pub struct AppConfig {
    pub com_port: String,
    pub baud_rate: u32,
    pub can_yaml_path: String,
    pub replay_file_path: Option<String>,
}

impl Default for AppConfig {
    fn default() -> (cfg: Self)
        ensures
            cfg.com_port@ == "COM9"@,
            cfg.baud_rate == 230_400,
            cfg.can_yaml_path@ == "global_can.yaml"@,
            cfg.replay_file_path is None,
    {
        Self {
            com_port: "COM9".to_owned(),
            baud_rate: 230_400,
            can_yaml_path: "global_can.yaml".to_owned(),
            replay_file_path: None,
        }
    }
}

impl Clone for AppConfig {
    fn clone(&self) -> (cfg: Self)
        ensures
            cfg == *self,
    {
        Self {
            com_port: self.com_port.clone(),
            baud_rate: self.baud_rate,
            can_yaml_path: self.can_yaml_path.clone(),
            replay_file_path: match &self.replay_file_path {
                Some(p) => Some(p.clone()),
                None => None,
            },
        }
    }
}

impl AppConfig {
    /// The settings that were read, or the defaults where none could be.
    pub fn load_or_default(loaded: Option<AppConfig>) -> (cfg: Self)
        ensures
            match loaded {
                Some(c) => cfg == c,
                None => {
                    &&& cfg.com_port@ == "COM9"@
                    &&& cfg.baud_rate == 230_400
                    &&& cfg.can_yaml_path@ == "global_can.yaml"@
                    &&& cfg.replay_file_path is None
                },
            },
    {
        match loaded {
            Some(c) => c,
            None => AppConfig::default(),
        }
    }
}

} // verus!
