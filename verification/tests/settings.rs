use lanmark::settings::{
    pick, sanitize_font_stack, Appearance, CustomFonts, EditorPrefs, Settings, SettingsPatch, StoragePrefs,
    CUSTOM_FONT_MAX,
};
use lanmark::settings_cmd::{settings_apply_op, settings_read_op, settings_reset_op};
use lanmark::vault::{vault_of, AppConfig};

#[test]
fn defaults_match_previous_hardcoded_visuals() {
    let a = Appearance::default();
    assert_eq!(a.ui_font, "system");
    assert_eq!(a.text_font, "sans");
    assert_eq!(a.text_size, "md");
    assert_eq!(a.code_size, "md");
    assert_eq!(a.line_height, "normal");
    assert_eq!(a.content_width, "auto");
    assert_eq!(a.ui_scale_pct, 100);
    let e = EditorPrefs::default();
    assert_eq!(e.default_mode, "wysiwyg");
    assert_eq!(e.autosave_ms, 700);
    assert!(e.source_line_numbers);
    assert_eq!(e.new_note_location, "root");
    assert_eq!(StoragePrefs::default().trash_retention_days, 30);
}

#[test]
fn normalize_falls_back_on_illegal_enums() {
    let a = Appearance {
        ui_font: "comic".into(),
        text_font: "comic".into(),
        mono_font: "comic".into(),
        text_size: "huge".into(),
        code_size: "".into(),
        line_height: "loose".into(),
        content_width: "wide".into(),
        ui_scale_pct: 999,
        ..Appearance::default()
    }
    .normalize();
    assert_eq!(a.ui_font, "system");
    assert_eq!(a.text_font, "system");
    assert_eq!(a.mono_font, "system");
    assert_eq!(a.text_size, "md");
    assert_eq!(a.code_size, "md");
    assert_eq!(a.line_height, "normal");
    assert_eq!(a.content_width, "auto");
    assert_eq!(a.ui_scale_pct, 100);

    let e = EditorPrefs {
        default_mode: "edit".into(),
        autosave_ms: 42,
        new_note_location: "somewhere".into(),
        ..EditorPrefs::default()
    }
    .normalize();
    assert_eq!(e.default_mode, "wysiwyg");
    assert_eq!(e.autosave_ms, 700);
    assert_eq!(e.new_note_location, "root");
}

#[test]
fn normalize_keeps_legal_enums() {
    let sizes = ["sm", "md", "lg", "xl"];
    for k in sizes {
        assert_eq!(pick(k, &sizes, "md"), k);
    }
    let heights = ["compact", "normal", "relaxed"];
    for k in heights {
        assert_eq!(pick(k, &heights, "normal"), k);
    }
    for ms in [300, 700, 1500, 3000] {
        let e = EditorPrefs { autosave_ms: ms, ..EditorPrefs::default() }.normalize();
        assert_eq!(e.autosave_ms, ms);
    }
    for pct in [100, 112, 125] {
        let a = Appearance { ui_scale_pct: pct, ..Appearance::default() }.normalize();
        assert_eq!(a.ui_scale_pct, pct);
    }
}

#[test]
fn font_stack_whitelist_rejects_injection() {
    assert!(sanitize_font_stack("x; --c-ink: red").is_none());
    assert!(sanitize_font_stack("x} .a{display:none").is_none());
    assert!(sanitize_font_stack("url(/etc/passwd)").is_none());
    assert!(sanitize_font_stack("<script>").is_none());
    assert!(sanitize_font_stack("@import 'x'").is_none());
    assert!(sanitize_font_stack("a\\b").is_none());
    assert!(sanitize_font_stack("a!important").is_none());
    assert!(sanitize_font_stack(&"a".repeat(CUSTOM_FONT_MAX + 1)).is_none());
    assert_eq!(sanitize_font_stack(&"a".repeat(CUSTOM_FONT_MAX)).unwrap().len(), CUSTOM_FONT_MAX);
    assert!(sanitize_font_stack("").is_none());
    assert!(sanitize_font_stack("   ").is_none());
    let ok = r#""Noto Serif CJK SC", "思源宋体", Songti SC, serif"#;
    assert_eq!(sanitize_font_stack(ok).unwrap(), ok);
    assert!(sanitize_font_stack("Fira Code, ui-monospace").is_some());
}

#[test]
fn custom_font_requires_valid_stack() {
    let a = Appearance {
        ui_font: "custom".into(),
        custom_fonts: CustomFonts { ui: "x; --c-ink: red".into(), ..Default::default() },
        ..Appearance::default()
    }
    .normalize();
    assert_eq!(a.ui_font, "system");
    assert_eq!(a.custom_fonts.ui, "");

    let a = Appearance {
        ui_font: "custom".into(),
        custom_fonts: CustomFonts { ui: "Fira Sans".into(), ..Default::default() },
        ..Appearance::default()
    }
    .normalize();
    assert_eq!(a.ui_font, "custom");
    assert_eq!(a.custom_fonts.ui, "Fira Sans");
}

#[test]
fn patch_replaces_only_named_section_and_normalizes() {
    let base = Settings::default();
    let patched = base.clone().apply(SettingsPatch {
        appearance: Some(Appearance { text_size: "xl".into(), ..Appearance::default() }),
        ..Default::default()
    });
    assert_eq!(patched.appearance.text_size, "xl");
    assert_eq!(patched.editor, base.editor);
    assert_eq!(patched.storage, base.storage);

    let patched = base.apply(SettingsPatch {
        editor: Some(EditorPrefs { autosave_ms: 1, ..EditorPrefs::default() }),
        ..Default::default()
    });
    assert_eq!(patched.editor.autosave_ms, 700);
}

#[test]
fn a_section_that_is_not_passed_keeps_its_value() {
    let mut base = Settings::default();
    base.editor.autosave_ms = 42;
    base.storage.trash_retention_days = 100_000;
    let patched = base.apply(SettingsPatch {
        appearance: Some(Appearance { text_size: "huge".into(), ..Appearance::default() }),
        ..Default::default()
    });
    assert_eq!(patched.appearance.text_size, "md");
    assert_eq!(patched.editor.autosave_ms, 42);
    assert_eq!(patched.storage.trash_retention_days, 100_000);
}

#[test]
fn trash_retention_clamped() {
    let s = StoragePrefs { trash_retention_days: 0 }.normalize();
    assert_eq!(s.trash_retention_days, 0, "0 = 从不，是合法值");
    let s = StoragePrefs { trash_retention_days: 100_000 }.normalize();
    assert_eq!(s.trash_retention_days, 3650);
}

#[test]
fn patch_touches_only_target_section() {
    let mut cfg = AppConfig::default();
    let before_editor = cfg.editor.clone();
    let before_storage = cfg.storage.clone();
    let out = settings_apply_op(
        &mut cfg,
        SettingsPatch {
            appearance: Some(Appearance { text_size: "xl".into(), ..Appearance::default() }),
            ..Default::default()
        },
    );
    assert_eq!(out.appearance.text_size, "xl");
    assert_eq!(cfg.appearance.text_size, "xl", "落进了配置");
    assert_eq!(cfg.editor, before_editor, "未传的小节不动");
    assert_eq!(cfg.storage, before_storage);
}

#[test]
fn patch_never_clobbers_vault_path_or_sync_auto() {
    let mut cfg =
        AppConfig { vault_path: Some("/home/u/notes".into()), sync_auto: false, ..AppConfig::default() };
    settings_apply_op(
        &mut cfg,
        SettingsPatch {
            appearance: Some(Appearance::default()),
            editor: Some(EditorPrefs { autosave_ms: 1500, ..EditorPrefs::default() }),
            storage: Some(StoragePrefs { trash_retention_days: 7 }),
        },
    );
    assert_eq!(cfg.vault_path.as_deref(), Some("/home/u/notes"));
    assert!(!cfg.sync_auto);
    assert_eq!(cfg.editor.autosave_ms, 1500);
    assert_eq!(cfg.storage.trash_retention_days, 7);
}

#[test]
fn patch_returns_normalized_values() {
    let mut cfg = AppConfig::default();
    let out = settings_apply_op(
        &mut cfg,
        SettingsPatch {
            appearance: Some(Appearance {
                ui_font: "custom".into(),
                custom_fonts: CustomFonts { ui: "x; --c-ink: red".into(), ..Default::default() },
                ..Appearance::default()
            }),
            ..Default::default()
        },
    );
    assert_eq!(out.appearance.ui_font, "system");
    assert_eq!(out.appearance.custom_fonts.ui, "");
    assert_eq!(cfg.appearance.ui_font, "system", "落盘也是归一化后的值");
}

#[test]
fn reset_keeps_vault_path_and_sync_auto() {
    let mut cfg = AppConfig {
        vault_path: Some("/home/u/notes".into()),
        sync_auto: false,
        appearance: Appearance { text_size: "xl".into(), ui_font: "serif".into(), ..Appearance::default() },
        editor: EditorPrefs { autosave_ms: 3000, ..EditorPrefs::default() },
        storage: StoragePrefs { trash_retention_days: 0 },
    };
    let out = settings_reset_op(&mut cfg);
    assert_eq!(out, Settings::default(), "设置回到默认");
    assert_eq!(cfg.vault_path.as_deref(), Some("/home/u/notes"), "换库配置不能丢");
    assert!(!cfg.sync_auto, "同步开关是独立项，恢复默认设置不动它");
}

#[test]
fn read_is_pure_and_dependency_free() {
    let cfg = AppConfig::default();
    assert_eq!(settings_read_op(&cfg), Settings::default());
}

#[test]
fn normalizing_twice_changes_nothing() {
    let a = Appearance {
        ui_font: "custom".into(),
        custom_fonts: CustomFonts { ui: "  Fira Sans ".into(), text: "a;b".into(), mono: "".into() },
        text_size: "lg".into(),
        ui_scale_pct: 112,
        ..Appearance::default()
    }
    .normalize();
    assert_eq!(a.clone().normalize(), a);
    assert_eq!(a.custom_fonts.text, "");
    let e = EditorPrefs { autosave_ms: 5, ..EditorPrefs::default() }.normalize();
    assert_eq!(e.clone().normalize(), e);
    let s = Settings::default();
    assert_eq!(s.clone().apply(SettingsPatch::default()), s);
}

#[test]
fn vault_of_ignores_an_empty_path() {
    let mut cfg = AppConfig::default();
    assert_eq!(vault_of(&cfg), None);
    cfg.vault_path = Some(String::new());
    assert_eq!(vault_of(&cfg), None);
    cfg.vault_path = Some("/v".to_string());
    assert_eq!(vault_of(&cfg), Some("/v".to_string()));
}
