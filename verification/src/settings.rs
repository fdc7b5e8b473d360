//! The preferences of a device, and how they are brought into order: what is
//! not legal falls back to a default, so that no stored value can spoil the
//! layout.
use vstd::prelude::*;

use crate::text;
use crate::text::{same, to_chars, trim};

verus! {

/// The longest font stack of one's own, in characters.
pub const CUSTOM_FONT_MAX: usize = 200;

// ---------- data ----------

/// Font stacks of one's own; an empty one is not set.
#[derive(Debug, PartialEq, Eq)]
pub struct CustomFonts {
    pub ui: String,
    pub text: String,
    pub mono: String,
}

pub struct CustomFontsView {
    pub ui: Seq<char>,
    pub text: Seq<char>,
    pub mono: Seq<char>,
}

impl View for CustomFonts {
    type V = CustomFontsView;

    open spec fn view(&self) -> CustomFontsView {
        CustomFontsView { ui: self.ui@, text: self.text@, mono: self.mono@ }
    }
}

impl Clone for CustomFonts {
    fn clone(&self) -> (r: Self)
        ensures
            r == *self,
    {
        CustomFonts { ui: self.ui.clone(), text: self.text.clone(), mono: self.mono.clone() }
    }
}

impl Default for CustomFonts {
    fn default() -> (r: Self)
        ensures
            r@ == CustomFontsView::standard(),
    {
        CustomFonts { ui: String::new(), text: String::new(), mono: String::new() }
    }
}

impl CustomFontsView {
    /// No font stack is set.
    pub open spec fn standard() -> CustomFontsView {
        CustomFontsView { ui: Seq::empty(), text: Seq::empty(), mono: Seq::empty() }
    }
}

/// How things look.
#[derive(Debug, PartialEq, Eq)]
pub struct Appearance {
    pub ui_font: String,
    pub text_font: String,
    pub mono_font: String,
    pub custom_fonts: CustomFonts,
    pub text_size: String,
    pub code_size: String,
    pub line_height: String,
    pub content_width: String,
    pub ui_scale_pct: u16,
}

pub struct AppearanceView {
    pub ui_font: Seq<char>,
    pub text_font: Seq<char>,
    pub mono_font: Seq<char>,
    pub custom_fonts: CustomFontsView,
    pub text_size: Seq<char>,
    pub code_size: Seq<char>,
    pub line_height: Seq<char>,
    pub content_width: Seq<char>,
    pub ui_scale_pct: u16,
}

impl View for Appearance {
    type V = AppearanceView;

    open spec fn view(&self) -> AppearanceView {
        AppearanceView {
            ui_font: self.ui_font@,
            text_font: self.text_font@,
            mono_font: self.mono_font@,
            custom_fonts: self.custom_fonts@,
            text_size: self.text_size@,
            code_size: self.code_size@,
            line_height: self.line_height@,
            content_width: self.content_width@,
            ui_scale_pct: self.ui_scale_pct,
        }
    }
}

impl Clone for Appearance {
    fn clone(&self) -> (r: Self)
        ensures
            r == *self,
    {
        Appearance {
            ui_font: self.ui_font.clone(),
            text_font: self.text_font.clone(),
            mono_font: self.mono_font.clone(),
            custom_fonts: self.custom_fonts.clone(),
            text_size: self.text_size.clone(),
            code_size: self.code_size.clone(),
            line_height: self.line_height.clone(),
            content_width: self.content_width.clone(),
            ui_scale_pct: self.ui_scale_pct,
        }
    }
}

impl AppearanceView {
    /// The appearance of a new device.
    pub open spec fn standard() -> AppearanceView {
        AppearanceView {
            ui_font: "system"@,
            text_font: "sans"@,
            mono_font: "system"@,
            custom_fonts: CustomFontsView::standard(),
            text_size: "md"@,
            code_size: "md"@,
            line_height: "normal"@,
            content_width: "auto"@,
            ui_scale_pct: 100,
        }
    }
}

impl Default for Appearance {
    fn default() -> (r: Self)
        ensures
            r@ == AppearanceView::standard(),
    {
        Appearance {
            ui_font: "system".to_owned(),
            text_font: "sans".to_owned(),
            mono_font: "system".to_owned(),
            custom_fonts: CustomFonts::default(),
            text_size: "md".to_owned(),
            code_size: "md".to_owned(),
            line_height: "normal".to_owned(),
            content_width: "auto".to_owned(),
            ui_scale_pct: 100,
        }
    }
}

/// How the editor behaves.
#[derive(Debug, PartialEq, Eq)]
pub struct EditorPrefs {
    /// The mode in which a note is opened.
    pub default_mode: String,
    /// How long to wait before a note is saved by itself, in milliseconds.
    pub autosave_ms: u32,
    pub source_line_numbers: bool,
    /// Where a new note goes: `root`, or `last` for the last directory.
    pub new_note_location: String,
}

pub struct EditorPrefsView {
    pub default_mode: Seq<char>,
    pub autosave_ms: u32,
    pub source_line_numbers: bool,
    pub new_note_location: Seq<char>,
}

impl View for EditorPrefs {
    type V = EditorPrefsView;

    open spec fn view(&self) -> EditorPrefsView {
        EditorPrefsView {
            default_mode: self.default_mode@,
            autosave_ms: self.autosave_ms,
            source_line_numbers: self.source_line_numbers,
            new_note_location: self.new_note_location@,
        }
    }
}

impl Clone for EditorPrefs {
    fn clone(&self) -> (r: Self)
        ensures
            r == *self,
    {
        EditorPrefs {
            default_mode: self.default_mode.clone(),
            autosave_ms: self.autosave_ms,
            source_line_numbers: self.source_line_numbers,
            new_note_location: self.new_note_location.clone(),
        }
    }
}

impl EditorPrefsView {
    /// The editor of a new device.
    pub open spec fn standard() -> EditorPrefsView {
        EditorPrefsView {
            default_mode: "wysiwyg"@,
            autosave_ms: 700,
            source_line_numbers: true,
            new_note_location: "root"@,
        }
    }
}

impl Default for EditorPrefs {
    fn default() -> (r: Self)
        ensures
            r@ == EditorPrefsView::standard(),
    {
        EditorPrefs {
            default_mode: "wysiwyg".to_owned(),
            autosave_ms: 700,
            source_line_numbers: true,
            new_note_location: "root".to_owned(),
        }
    }
}

/// How the vault is kept.
#[derive(Debug, PartialEq, Eq)]
pub struct StoragePrefs {
    /// For how many days the trash keeps what was deleted; 0 is for ever.
    pub trash_retention_days: u32,
}

impl View for StoragePrefs {
    type V = u32;

    open spec fn view(&self) -> u32 {
        self.trash_retention_days
    }
}

impl Clone for StoragePrefs {
    fn clone(&self) -> (r: Self)
        ensures
            r == *self,
    {
        StoragePrefs { trash_retention_days: self.trash_retention_days }
    }
}

impl Default for StoragePrefs {
    fn default() -> (r: Self)
        ensures
            r@ == 30,
    {
        StoragePrefs { trash_retention_days: 30 }
    }
}

/// All settings.
#[derive(Debug, PartialEq, Eq)]
pub struct Settings {
    pub appearance: Appearance,
    pub editor: EditorPrefs,
    pub storage: StoragePrefs,
}

pub struct SettingsView {
    pub appearance: AppearanceView,
    pub editor: EditorPrefsView,
    pub storage: u32,
}

impl View for Settings {
    type V = SettingsView;

    open spec fn view(&self) -> SettingsView {
        SettingsView { appearance: self.appearance@, editor: self.editor@, storage: self.storage@ }
    }
}

impl Clone for Settings {
    fn clone(&self) -> (r: Self)
        ensures
            r == *self,
    {
        Settings {
            appearance: self.appearance.clone(),
            editor: self.editor.clone(),
            storage: self.storage.clone(),
        }
    }
}

impl SettingsView {
    /// The settings of a new device.
    pub open spec fn standard() -> SettingsView {
        SettingsView {
            appearance: AppearanceView::standard(),
            editor: EditorPrefsView::standard(),
            storage: 30,
        }
    }
}

impl Default for Settings {
    fn default() -> (r: Self)
        ensures
            r@ == SettingsView::standard(),
    {
        Settings {
            appearance: Appearance::default(),
            editor: EditorPrefs::default(),
            storage: StoragePrefs::default(),
        }
    }
}

/// A change of settings: a section that is given takes the place of the old
/// one as a whole.
#[derive(Debug)]
pub struct SettingsPatch {
    pub appearance: Option<Appearance>,
    pub editor: Option<EditorPrefs>,
    pub storage: Option<StoragePrefs>,
}

impl Default for SettingsPatch {
    fn default() -> (r: Self)
        ensures
            r.appearance is None,
            r.editor is None,
            r.storage is None,
    {
        SettingsPatch { appearance: None, editor: None, storage: None }
    }
}

// ---------- bringing into order ----------

/// `key` where it is one of `allowed`, else `fallback`.
pub open spec fn picked(key: Seq<char>, allowed: Seq<Seq<char>>, fallback: Seq<char>) -> Seq<char> {
    if allowed.contains(key) {
        key
    } else {
        fallback
    }
}

/// The texts of a list of string slices.
pub open spec fn str_views(s: Seq<&str>) -> Seq<Seq<char>> {
    s.map_values(|t: &str| t@)
}

/// `key` where it is one of `allowed`, else `fallback`.
pub fn pick(key: &str, allowed: &[&str], fallback: &str) -> (r: String)
    ensures
        r@ == picked(key@, str_views(allowed@), fallback@),
{
    let mut i: usize = 0;
    while i < allowed.len()
        invariant
            i <= allowed.len(),
            forall|j: int| 0 <= j < i ==> str_views(allowed@)[j] != key@,
        decreases allowed.len() - i,
    {
        if same(allowed[i], key) {
            assert(str_views(allowed@)[i as int] == key@);
            return key.to_owned();
        }
        i = i + 1;
    }
    fallback.to_owned()
}

/// Whether a character may stand in a font stack: letters, digits, some
/// punctuation, and what lies beyond ASCII and its control characters.
pub open spec fn is_font_char(c: char) -> bool {
    ||| 'a' <= c <= 'z'
    ||| 'A' <= c <= 'Z'
    ||| '0' <= c <= '9'
    ||| c == ' '
    ||| c == ','
    ||| c == '-'
    ||| c == '_'
    ||| c == '"'
    ||| c == '\''
    ||| c == '('
    ||| c == ')'
    ||| c > '\u{9f}'
}

/// Whether `s` is a font stack: not empty, not too long, and made of the
/// characters that may stand in one.
pub open spec fn is_font_stack(s: Seq<char>) -> bool {
    0 < s.len() <= CUSTOM_FONT_MAX && forall|i: int| 0 <= i < s.len() ==> is_font_char(#[trigger] s[i])
}

/// The font stack that `raw` gives, if it gives one.
pub open spec fn font_stack(raw: Seq<char>) -> Option<Seq<char>> {
    let s = text::trimmed(raw);
    if is_font_stack(s) {
        Some(s)
    } else {
        None
    }
}

/// The font stack that `raw` gives. What could end a style declaration is
/// refused, since the stack is written into one.
pub fn sanitize_font_stack(raw: &str) -> (r: Option<String>)
    ensures
        text::opt_view(r) == font_stack(raw@),
{
    let s = trim(raw);
    let v = to_chars(s.as_str());
    if v.len() == 0 || v.len() > CUSTOM_FONT_MAX {
        return None;
    }
    let mut i: usize = 0;
    while i < v.len()
        invariant
            i <= v.len(),
            v@ == s@,
            s@ == text::trimmed(raw@),
            0 < v.len() <= CUSTOM_FONT_MAX,
            forall|j: int| 0 <= j < i ==> is_font_char(#[trigger] s@[j]),
        decreases v.len() - i,
    {
        let c = v[i];
        let ok: bool = ('a' <= c && c <= 'z') || ('A' <= c && c <= 'Z') || ('0' <= c && c <= '9') || c
            == ' ' || c == ',' || c == '-' || c == '_' || c == '"' || c == '\'' || c == '(' || c == ')'
            || c > '\u{9f}';
        if !ok {
            assert(!is_font_char(s@[i as int]));
            return None;
        }
        i = i + 1;
    }
    Some(s)
}

/// An accepted font stack holds none of the characters that end or open a
/// declaration, a rule, a tag or an escape.
pub proof fn law_font_stack_cannot_inject(raw: Seq<char>, i: int)
    requires
        font_stack(raw) is Some,
        0 <= i < font_stack(raw)->0.len(),
    ensures
        ({
            let c = font_stack(raw)->0[i];
            c != ';' && c != '{' && c != '}' && c != '<' && c != '>' && c != '@' && c != '!' && c != '\\'
                && c != '/' && c != ':'
        }),
{
    assert(is_font_char(font_stack(raw)->0[i]));
}

/// What was accepted once is accepted again as it is.
pub proof fn law_font_stack_is_stable(raw: Seq<char>)
    requires
        font_stack(raw) is Some,
    ensures
        font_stack(font_stack(raw)->0) == font_stack(raw),
{
    text::lemma_trimmed_idempotent(raw);
}

/// The keys of the fonts of the interface and of the text.
pub open spec fn font_keys_ui() -> Seq<Seq<char>> {
    seq!["system"@, "sans"@, "serif"@, "custom"@]
}

/// The keys of the fonts of fixed width.
pub open spec fn font_keys_mono() -> Seq<Seq<char>> {
    seq!["system"@, "mono"@, "custom"@]
}

/// The keys of the sizes.
pub open spec fn size_keys() -> Seq<Seq<char>> {
    seq!["sm"@, "md"@, "lg"@, "xl"@]
}

/// The keys of the distances between lines.
pub open spec fn line_height_keys() -> Seq<Seq<char>> {
    seq!["compact"@, "normal"@, "relaxed"@]
}

/// The keys of the widths of the text.
pub open spec fn content_width_keys() -> Seq<Seq<char>> {
    seq!["auto"@, "limited"@]
}

/// The modes of the editor.
pub open spec fn editor_mode_keys() -> Seq<Seq<char>> {
    seq!["read"@, "wysiwyg"@, "source"@]
}

/// The places for a new note.
pub open spec fn new_note_location_keys() -> Seq<Seq<char>> {
    seq!["root"@, "last"@]
}

/// A font key in order: `custom` only with a font stack, and `system` for what
/// is not legal.
pub open spec fn font_in_order(key: Seq<char>, custom: Seq<char>, allowed: Seq<Seq<char>>) -> Seq<char> {
    let k = picked(key, allowed, "system"@);
    if k != "custom"@ {
        k
    } else if font_stack(custom) is Some {
        "custom"@
    } else {
        "system"@
    }
}

/// A font key in order.
pub fn norm_font(key: &str, custom: &str, allowed: &[&str]) -> (r: String)
    ensures
        r@ == font_in_order(key@, custom@, str_views(allowed@)),
{
    let k = pick(key, allowed, "system");
    if !same(k.as_str(), "custom") {
        return k;
    }
    if sanitize_font_stack(custom).is_some() {
        "custom".to_owned()
    } else {
        "system".to_owned()
    }
}

/// The font stack that `raw` gives, empty where it gives none.
pub open spec fn stack_or_none(raw: Seq<char>) -> Seq<char> {
    match font_stack(raw) {
        Some(s) => s,
        None => Seq::empty(),
    }
}

/// The font stack that `raw` gives, empty where it gives none.
fn clean_stack(raw: &str) -> (r: String)
    ensures
        r@ == stack_or_none(raw@),
{
    match sanitize_font_stack(raw) {
        Some(s) => s,
        None => String::new(),
    }
}

impl AppearanceView {
    /// The appearance in order.
    pub open spec fn in_order(self) -> AppearanceView {
        let fonts = CustomFontsView {
            ui: stack_or_none(self.custom_fonts.ui),
            text: stack_or_none(self.custom_fonts.text),
            mono: stack_or_none(self.custom_fonts.mono),
        };
        AppearanceView {
            ui_font: font_in_order(self.ui_font, fonts.ui, font_keys_ui()),
            text_font: font_in_order(self.text_font, fonts.text, font_keys_ui()),
            mono_font: font_in_order(self.mono_font, fonts.mono, font_keys_mono()),
            custom_fonts: fonts,
            text_size: picked(self.text_size, size_keys(), "md"@),
            code_size: picked(self.code_size, size_keys(), "md"@),
            line_height: picked(self.line_height, line_height_keys(), "normal"@),
            content_width: picked(self.content_width, content_width_keys(), "auto"@),
            ui_scale_pct: if self.ui_scale_pct == 100 || self.ui_scale_pct == 112
                || self.ui_scale_pct == 125 {
                self.ui_scale_pct
            } else {
                100
            },
        }
    }
}

impl EditorPrefsView {
    /// The preferences in order.
    pub open spec fn in_order(self) -> EditorPrefsView {
        EditorPrefsView {
            default_mode: picked(self.default_mode, editor_mode_keys(), "wysiwyg"@),
            autosave_ms: if self.autosave_ms == 300 || self.autosave_ms == 700 || self.autosave_ms
                == 1500 || self.autosave_ms == 3000 {
                self.autosave_ms
            } else {
                700
            },
            source_line_numbers: self.source_line_numbers,
            new_note_location: picked(self.new_note_location, new_note_location_keys(), "root"@),
        }
    }
}

/// The days in order: at most ten years.
pub open spec fn days_in_order(days: u32) -> u32 {
    if days > 3650 {
        3650
    } else {
        days
    }
}

impl Appearance {
    /// The appearance with every field in order.
    pub fn normalize(self) -> (r: Self)
        ensures
            r@ == self@.in_order(),
    {
        let ui_keys: [&str; 4] = ["system", "sans", "serif", "custom"];
        let mono_keys: [&str; 3] = ["system", "mono", "custom"];
        let sizes: [&str; 4] = ["sm", "md", "lg", "xl"];
        let heights: [&str; 3] = ["compact", "normal", "relaxed"];
        let widths: [&str; 2] = ["auto", "limited"];
        proof {
            assert(str_views(ui_keys@) =~= font_keys_ui());
            assert(str_views(mono_keys@) =~= font_keys_mono());
            assert(str_views(sizes@) =~= size_keys());
            assert(str_views(heights@) =~= line_height_keys());
            assert(str_views(widths@) =~= content_width_keys());
        }
        let ui = clean_stack(self.custom_fonts.ui.as_str());
        let text_stack = clean_stack(self.custom_fonts.text.as_str());
        let mono = clean_stack(self.custom_fonts.mono.as_str());
        let scale: u16 = if self.ui_scale_pct == 100 || self.ui_scale_pct == 112 || self.ui_scale_pct
            == 125 {
            self.ui_scale_pct
        } else {
            100
        };
        Appearance {
            ui_font: norm_font(
                self.ui_font.as_str(),
                ui.as_str(),
                vstd::array::array_as_slice(&ui_keys),
            ),
            text_font: norm_font(
                self.text_font.as_str(),
                text_stack.as_str(),
                vstd::array::array_as_slice(&ui_keys),
            ),
            mono_font: norm_font(
                self.mono_font.as_str(),
                mono.as_str(),
                vstd::array::array_as_slice(&mono_keys),
            ),
            custom_fonts: CustomFonts { ui, text: text_stack, mono },
            text_size: pick(self.text_size.as_str(), vstd::array::array_as_slice(&sizes), "md"),
            code_size: pick(self.code_size.as_str(), vstd::array::array_as_slice(&sizes), "md"),
            line_height: pick(
                self.line_height.as_str(),
                vstd::array::array_as_slice(&heights),
                "normal",
            ),
            content_width: pick(
                self.content_width.as_str(),
                vstd::array::array_as_slice(&widths),
                "auto",
            ),
            ui_scale_pct: scale,
        }
    }
}

impl EditorPrefs {
    /// The preferences with every field in order.
    pub fn normalize(self) -> (r: Self)
        ensures
            r@ == self@.in_order(),
    {
        let modes: [&str; 3] = ["read", "wysiwyg", "source"];
        let places: [&str; 2] = ["root", "last"];
        proof {
            assert(str_views(modes@) =~= editor_mode_keys());
            assert(str_views(places@) =~= new_note_location_keys());
        }
        let autosave_ms: u32 = if self.autosave_ms == 300 || self.autosave_ms == 700 || self.autosave_ms
            == 1500 || self.autosave_ms == 3000 {
            self.autosave_ms
        } else {
            700
        };
        EditorPrefs {
            default_mode: pick(
                self.default_mode.as_str(),
                vstd::array::array_as_slice(&modes),
                "wysiwyg",
            ),
            autosave_ms,
            source_line_numbers: self.source_line_numbers,
            new_note_location: pick(
                self.new_note_location.as_str(),
                vstd::array::array_as_slice(&places),
                "root",
            ),
        }
    }
}

impl StoragePrefs {
    /// The preferences in order: at most ten years.
    pub fn normalize(self) -> (r: Self)
        ensures
            r@ == days_in_order(self@),
    {
        if self.trash_retention_days > 3650 {
            StoragePrefs { trash_retention_days: 3650 }
        } else {
            self
        }
    }
}

impl SettingsView {
    /// The settings after a change.
    pub open spec fn patched(self, patch: SettingsPatch) -> SettingsView {
        SettingsView {
            appearance: match patch.appearance {
                Some(a) => a@.in_order(),
                None => self.appearance,
            },
            editor: match patch.editor {
                Some(e) => e@.in_order(),
                None => self.editor,
            },
            storage: match patch.storage {
                Some(s) => days_in_order(s@),
                None => self.storage,
            },
        }
    }

    /// Whether the settings are in order.
    pub open spec fn is_in_order(self) -> bool {
        &&& self.appearance == self.appearance.in_order()
        &&& self.editor == self.editor.in_order()
        &&& self.storage == days_in_order(self.storage)
    }
}

impl Settings {
    /// The settings after a change: the sections that are given are brought
    /// into order and take the place of the old ones, the others stay.
    pub fn apply(self, patch: SettingsPatch) -> (r: Self)
        ensures
            r@ == self@.patched(patch),
    {
        let appearance: Appearance = match patch.appearance {
            Some(a) => a.normalize(),
            None => self.appearance,
        };
        let editor: EditorPrefs = match patch.editor {
            Some(e) => e.normalize(),
            None => self.editor,
        };
        let storage: StoragePrefs = match patch.storage {
            Some(s) => s.normalize(),
            None => self.storage,
        };
        Settings { appearance, editor, storage }
    }
}

proof fn lemma_font_is_stable(key: Seq<char>, raw: Seq<char>, allowed: Seq<Seq<char>>)
    requires
        allowed.contains("system"@),
    ensures
        font_in_order(
            font_in_order(key, stack_or_none(raw), allowed),
            stack_or_none(stack_or_none(raw)),
            allowed,
        ) == font_in_order(key, stack_or_none(raw), allowed),
        stack_or_none(stack_or_none(raw)) == stack_or_none(raw),
{
    reveal_strlit("custom");
    reveal_strlit("system");
    if font_stack(raw) is Some {
        law_font_stack_is_stable(raw);
    } else {
        assert(text::trimmed(Seq::<char>::empty()) =~= Seq::<char>::empty());
    }
    assert("custom"@.len() == 6 && "system"@.len() == 6);
    assert("custom"@[0] != "system"@[0]);
}

/// Bringing an appearance into order twice is bringing it into order once.
pub proof fn law_normalized_appearance_is_stable(a: AppearanceView)
    ensures
        a.in_order().in_order() == a.in_order(),
{
    assert(font_keys_ui()[0] == "system"@);
    assert(font_keys_mono()[0] == "system"@);
    assert(size_keys()[1] == "md"@);
    assert(line_height_keys()[1] == "normal"@);
    assert(content_width_keys()[0] == "auto"@);
    lemma_font_is_stable(a.ui_font, a.custom_fonts.ui, font_keys_ui());
    lemma_font_is_stable(a.text_font, a.custom_fonts.text, font_keys_ui());
    lemma_font_is_stable(a.mono_font, a.custom_fonts.mono, font_keys_mono());
}

/// Bringing the preferences of the editor into order twice is bringing them
/// into order once.
pub proof fn law_normalized_editor_is_stable(e: EditorPrefsView)
    ensures
        e.in_order().in_order() == e.in_order(),
{
    assert(editor_mode_keys()[1] == "wysiwyg"@);
    assert(new_note_location_keys()[0] == "root"@);
}

/// A section that a change gives is in order afterwards, and settings that are
/// in order stay so.
pub proof fn law_patched_settings_are_in_order(s: SettingsView, patch: SettingsPatch)
    ensures
        patch.appearance is Some ==> s.patched(patch).appearance == s.patched(patch).appearance.in_order(),
        patch.editor is Some ==> s.patched(patch).editor == s.patched(patch).editor.in_order(),
        patch.storage is Some ==> s.patched(patch).storage == days_in_order(s.patched(patch).storage),
        s.is_in_order() ==> s.patched(patch).is_in_order(),
{
    if let Some(a) = patch.appearance {
        law_normalized_appearance_is_stable(a@);
    }
    if let Some(e) = patch.editor {
        law_normalized_editor_is_stable(e@);
    }
}

/// A change leaves the sections alone that it does not give.
pub proof fn law_patch_leaves_the_other_sections(s: SettingsView, patch: SettingsPatch)
    ensures
        patch.appearance is None ==> s.patched(patch).appearance == s.appearance,
        patch.editor is None ==> s.patched(patch).editor == s.editor,
        patch.storage is None ==> s.patched(patch).storage == s.storage,
{
}

/// The settings of a new device are in order.
pub proof fn law_standard_settings_are_in_order()
    ensures
        SettingsView::standard().is_in_order(),
{
    assert(font_keys_ui()[0] == "system"@);
    assert(font_keys_ui()[1] == "sans"@);
    assert(font_keys_mono()[0] == "system"@);
    assert(size_keys()[1] == "md"@);
    assert(line_height_keys()[1] == "normal"@);
    assert(content_width_keys()[0] == "auto"@);
    assert(editor_mode_keys()[1] == "wysiwyg"@);
    assert(new_note_location_keys()[0] == "root"@);
    assert(text::trimmed(Seq::<char>::empty()) =~= Seq::<char>::empty());
    reveal_strlit("custom");
    reveal_strlit("system");
    reveal_strlit("sans");
    assert("custom"@[0] == 'c' && "system"@[0] == 's' && "sans"@[0] == 's');
}

// ---------- which choices are kept ----------

/// Whether `r` is the choice `key` where that is one of `known`, and `other`
/// where it is not.
pub open spec fn is_choice(r: Seq<char>, key: Seq<char>, known: Seq<Seq<char>>, other: Seq<char>) -> bool {
    &&& (exists|i: int| 0 <= i < known.len() && #[trigger] known[i] == key) ==> r == key
    &&& !(exists|i: int| 0 <= i < known.len() && #[trigger] known[i] == key) ==> r == other
}

/// Whether `r` is the font `key` where that is one of `known`, or the user's own
/// where a font of theirs is given, and the font of the system where it is not.
pub open spec fn is_font_choice(r: Seq<char>, key: Seq<char>, own: Seq<char>, known: Seq<Seq<char>>) -> bool {
    if key == "custom"@ {
        r == (if own.len() > 0 {
            "custom"@
        } else {
            "system"@
        })
    } else {
        is_choice(r, key, known, "system"@)
    }
}

/// A font of the user's own is kept, without white space around it, exactly if
/// it is not empty, at most 200 characters long, and made of letters, digits,
/// spaces, commas, hyphens, underscores, quotes, parentheses and characters
/// beyond the control characters.
pub proof fn law_fonts_of_their_own(raw: Seq<char>)
    ensures
        font_stack(raw) is Some <==> 0 < text::trimmed(raw).len() <= 200 && forall|i: int|
            0 <= i < text::trimmed(raw).len() ==> {
                let c = #[trigger] text::trimmed(raw)[i];
                ||| 'a' <= c <= 'z'
                ||| 'A' <= c <= 'Z'
                ||| '0' <= c <= '9'
                ||| seq![' ', ',', '-', '_', '"', '\'', '(', ')'].contains(c)
                ||| '\u{a0}' <= c
            },
        font_stack(raw) matches Some(s) ==> s == text::trimmed(raw),
{
    let s = text::trimmed(raw);
    let marks = seq![' ', ',', '-', '_', '"', '\'', '(', ')'];
    assert forall|i: int| 0 <= i < s.len() implies #[trigger] is_font_char(s[i]) == ({
        let c = s[i];
        ||| 'a' <= c <= 'z'
        ||| 'A' <= c <= 'Z'
        ||| '0' <= c <= '9'
        ||| marks.contains(c)
        ||| '\u{a0}' <= c
    }) by {
        assert(marks[0] == ' ' && marks[1] == ',' && marks[2] == '-' && marks[3] == '_');
        assert(marks[4] == '"' && marks[5] == '\'' && marks[6] == '(' && marks[7] == ')');
    }
}

/// Every known choice of the appearance is kept, and any other falls back to the
/// standard one.
pub proof fn law_known_appearance_is_kept(a: AppearanceView)
    ensures
        ({
            let r = a.in_order();
            let fonts = seq!["system"@, "sans"@, "serif"@];
            let sizes = seq!["sm"@, "md"@, "lg"@, "xl"@];
            &&& r.custom_fonts.ui == (match font_stack(a.custom_fonts.ui) {
                Some(s) => s,
                None => Seq::empty(),
            })
            &&& r.custom_fonts.text == (match font_stack(a.custom_fonts.text) {
                Some(s) => s,
                None => Seq::empty(),
            })
            &&& r.custom_fonts.mono == (match font_stack(a.custom_fonts.mono) {
                Some(s) => s,
                None => Seq::empty(),
            })
            &&& is_font_choice(r.ui_font, a.ui_font, r.custom_fonts.ui, fonts)
            &&& is_font_choice(r.text_font, a.text_font, r.custom_fonts.text, fonts)
            &&& is_font_choice(r.mono_font, a.mono_font, r.custom_fonts.mono, seq!["system"@, "mono"@])
            &&& is_choice(r.text_size, a.text_size, sizes, "md"@)
            &&& is_choice(r.code_size, a.code_size, sizes, "md"@)
            &&& is_choice(r.line_height, a.line_height, seq!["compact"@, "normal"@, "relaxed"@], "normal"@)
            &&& is_choice(r.content_width, a.content_width, seq!["auto"@, "limited"@], "auto"@)
            &&& r.ui_scale_pct == (if a.ui_scale_pct == 100 || a.ui_scale_pct == 112 || a.ui_scale_pct == 125 {
                a.ui_scale_pct
            } else {
                100
            })
        }),
{
    let fonts = seq!["system"@, "sans"@, "serif"@];
    let mono = seq!["system"@, "mono"@];
    let r = a.in_order();
    reveal_strlit("custom");
    reveal_strlit("system");
    reveal_strlit("sans");
    reveal_strlit("serif");
    reveal_strlit("mono");
    assert("custom"@[0] == 'c' && "system"@[0] == 's');
    assert(!fonts.contains("custom"@));
    assert(!mono.contains("custom"@));
    lemma_own_font(a.custom_fonts.ui);
    lemma_own_font(a.custom_fonts.text);
    lemma_own_font(a.custom_fonts.mono);
    assert(font_keys_ui() =~= fonts.push("custom"@));
    assert(font_keys_mono() =~= mono.push("custom"@));
    lemma_font_choice(a.ui_font, r.custom_fonts.ui, fonts);
    lemma_font_choice(a.text_font, r.custom_fonts.text, fonts);
    lemma_font_choice(a.mono_font, r.custom_fonts.mono, mono);
}

proof fn lemma_own_font(raw: Seq<char>)
    ensures
        stack_or_none(raw).len() > 0 <==> font_stack(stack_or_none(raw)) is Some,
{
    if font_stack(raw) is Some {
        law_font_stack_is_stable(raw);
    } else {
        assert(text::trimmed(Seq::<char>::empty()).len() == 0) by {
            text::lemma_trimmed_ends(Seq::empty());
        }
    }
}

proof fn lemma_font_choice(key: Seq<char>, own: Seq<char>, known: Seq<Seq<char>>)
    requires
        own.len() > 0 <==> font_stack(own) is Some,
        !known.contains("custom"@),
    ensures
        is_font_choice(font_in_order(key, own, known.push("custom"@)), key, own, known),
{
    let all = known.push("custom"@);
    assert(all[known.len() as int] == "custom"@);
    if all.contains(key) {
        let i = choose|i: int| 0 <= i < all.len() && all[i] == key;
        if i < known.len() {
            assert(known[i] == key);
        }
    }
    if known.contains(key) {
        let i = choose|i: int| 0 <= i < known.len() && known[i] == key;
        assert(all[i] == key);
    }
    reveal_strlit("custom");
    reveal_strlit("system");
}

/// Every known choice of the editor is kept, and any other falls back to the
/// standard one; deleted notes are kept at most ten years.
pub proof fn law_known_editor_choices_are_kept(e: EditorPrefsView, days: u32)
    ensures
        ({
            let r = e.in_order();
            &&& is_choice(r.default_mode, e.default_mode, seq!["read"@, "wysiwyg"@, "source"@], "wysiwyg"@)
            &&& is_choice(r.new_note_location, e.new_note_location, seq!["root"@, "last"@], "root"@)
            &&& r.source_line_numbers == e.source_line_numbers
            &&& r.autosave_ms == (if e.autosave_ms == 300 || e.autosave_ms == 700 || e.autosave_ms == 1500
                || e.autosave_ms == 3000 {
                e.autosave_ms
            } else {
                700
            })
        }),
        days <= 3650 ==> days_in_order(days) == days,
        days > 3650 ==> days_in_order(days) == 3650,
{
}

/// A reset gives the standard settings: these, whatever was chosen.
pub proof fn law_standard_settings()
    ensures
        ({
            let s = SettingsView::standard();
            &&& s.appearance.ui_font == "system"@
            &&& s.appearance.text_font == "sans"@
            &&& s.appearance.mono_font == "system"@
            &&& s.appearance.text_size == "md"@
            &&& s.appearance.code_size == "md"@
            &&& s.appearance.line_height == "normal"@
            &&& s.appearance.content_width == "auto"@
            &&& s.appearance.ui_scale_pct == 100
            &&& s.editor.default_mode == "wysiwyg"@
            &&& s.editor.autosave_ms == 700
            &&& s.editor.source_line_numbers
            &&& s.editor.new_note_location == "root"@
            &&& s.storage == 30
        }),
{
}

/// A section that is passed replaces the one before, put in order, whatever that
/// was.
pub proof fn law_patch_replaces_the_section(s: SettingsView, patch: SettingsPatch)
    ensures
        patch.appearance matches Some(a) ==> s.patched(patch).appearance == a@.in_order(),
        patch.editor matches Some(e) ==> s.patched(patch).editor == e@.in_order(),
        patch.storage matches Some(d) ==> s.patched(patch).storage == (if d@ > 3650 {
            3650
        } else {
            d@
        }),
{
}

} // verus!
