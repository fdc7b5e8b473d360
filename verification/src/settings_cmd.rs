//! Reading, changing and resetting the settings in the configuration.
use vstd::prelude::*;

use crate::settings::{Appearance, EditorPrefs, Settings, SettingsPatch, SettingsView, StoragePrefs};
use crate::vault::{AppConfig, AppConfigView};

verus! {

/// The settings as they are stored.
pub fn settings_read_op(cfg: &AppConfig) -> (r: Settings)
    ensures
        r@ == cfg@.settings,
{
    cfg.settings()
}

/// Changes the settings in the configuration and returns them; where the vault
/// lies and whether the device syncs by itself stay as they are.
pub fn settings_apply_op(cfg: &mut AppConfig, patch: SettingsPatch) -> (r: Settings)
    ensures
        r@ == old(cfg)@.settings.patched(patch),
        final(cfg)@ == (AppConfigView { settings: r@, ..old(cfg)@ }),
{
    let cur = cfg.settings();
    let next = cur.apply(patch);
    cfg.appearance = next.appearance.clone();
    cfg.editor = next.editor.clone();
    cfg.storage = next.storage.clone();
    next
}

/// Sets the settings back to those of a new device and returns them; where the
/// vault lies and whether the device syncs by itself stay as they are.
pub fn settings_reset_op(cfg: &mut AppConfig) -> (r: Settings)
    ensures
        r@ == SettingsView::standard(),
        final(cfg)@ == (AppConfigView { settings: r@, ..old(cfg)@ }),
{
    let vault_path: Option<String> = match &cfg.vault_path {
        Some(p) => Some(p.clone()),
        None => None,
    };
    let sync_auto = cfg.sync_auto;
    *cfg = AppConfig {
        vault_path,
        sync_auto,
        appearance: Appearance::default(),
        editor: EditorPrefs::default(),
        storage: StoragePrefs::default(),
    };
    cfg.settings()
}

} // verus!
