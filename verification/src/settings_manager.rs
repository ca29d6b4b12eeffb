//! The persistence boundary for [`AppSettings`]: a named interface that a
//! filesystem-backed store implements outside the core.

use vstd::prelude::*;

use crate::settings::AppSettings;

verus! {

/// Saves and loads the persisted settings under an application name. The
/// core only decides what to persist; where and how the bytes travel is the
/// implementor's business, and a failure is reported as a message.
pub trait SettingsManagerOperations {
    fn save_settings(&self, app_name: &str, settings: &AppSettings) -> Result<(), String>;

    fn load_settings(&self, app_name: &str) -> Result<AppSettings, String>;
}

/// The handle under which the application wires up its settings store.
pub struct CoreSettingsManager;

impl CoreSettingsManager {
    pub fn new() -> (r: Self) {
        Self
    }
}

} // verus!
