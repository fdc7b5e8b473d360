//! The configuration of a device.
use vstd::prelude::*;

use crate::settings;
use crate::settings::{Appearance, EditorPrefs, Settings, SettingsView, StoragePrefs};
use crate::text;

verus! {

/// The configuration of a device: where its vault lies, whether it syncs by
/// itself, and its settings.
#[derive(Debug)]
pub struct AppConfig {
    pub vault_path: Option<String>,
    pub sync_auto: bool,
    pub appearance: Appearance,
    pub editor: EditorPrefs,
    pub storage: StoragePrefs,
}

pub struct AppConfigView {
    pub vault_path: Option<Seq<char>>,
    pub sync_auto: bool,
    pub settings: SettingsView,
}

impl View for AppConfig {
    type V = AppConfigView;

    open spec fn view(&self) -> AppConfigView {
        AppConfigView {
            vault_path: text::opt_view(self.vault_path),
            sync_auto: self.sync_auto,
            settings: SettingsView {
                appearance: self.appearance@,
                editor: self.editor@,
                storage: self.storage@,
            },
        }
    }
}

/// A device syncs by itself unless it is told not to.
pub fn default_sync_auto() -> (r: bool)
    ensures
        r,
{
    true
}

impl Default for AppConfig {
    fn default() -> (r: Self)
        ensures
            r@ == (AppConfigView {
                vault_path: None,
                sync_auto: true,
                settings: SettingsView::standard(),
            }),
    {
        AppConfig {
            vault_path: None,
            sync_auto: default_sync_auto(),
            appearance: Appearance::default(),
            editor: EditorPrefs::default(),
            storage: StoragePrefs::default(),
        }
    }
}

impl AppConfig {
    /// The settings of the device.
    pub fn settings(&self) -> (r: Settings)
        ensures
            r@ == self@.settings,
    {
        Settings {
            appearance: self.appearance.clone(),
            editor: self.editor.clone(),
            storage: self.storage.clone(),
        }
    }
}

/// The vault of the device, unless none or an empty path is set.
pub fn vault_of(cfg: &AppConfig) -> (r: Option<String>)
    ensures
        text::opt_view(r) == match cfg@.vault_path {
            Some(p) => if p.len() > 0 {
                Some(p)
            } else {
                None
            },
            None => None,
        },
{
    match &cfg.vault_path {
        Some(p) => if p.as_str().is_empty() {
            None
        } else {
            Some(p.clone())
        },
        None => None,
    }
}

} // verus!
