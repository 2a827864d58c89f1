//! The settings that are kept between one run and the next. Several parts of the application
//! change them, each its own fields.

use vstd::prelude::*;

use crate::keybindings::{kept_after, save, saved_under, Action};
use crate::persistence::KeyBinding;
use crate::schema::opt_text;

verus! {

/// The settings. A field that was never set is absent. Sizes and distances are the bits of their
/// double-precision numbers, negated for negative ones, so that they are ordered like the numbers.
pub struct Settings {
    pub author_name: Option<String>,
    pub reading_font: Option<String>,
    pub reading_size_px: Option<i64>,
    pub reading_leading: Option<i64>,
    pub reading_verse_spacing: Option<i64>,
    pub reading_show_verse_numbers: Option<bool>,
    pub keybindings: Option<Vec<(String, KeyBinding)>>,
    pub lan_sharing_enabled: Option<bool>,
    pub device_name: Option<String>,
}

/// The mathematical view of the [`Settings`].
#[verifier::ext_equal]
pub struct SettingsView {
    pub author_name: Option<Seq<char>>,
    pub reading_font: Option<Seq<char>>,
    pub reading_size_px: Option<i64>,
    pub reading_leading: Option<i64>,
    pub reading_verse_spacing: Option<i64>,
    pub reading_show_verse_numbers: Option<bool>,
    pub keybindings: Option<Seq<(String, KeyBinding)>>,
    pub lan_sharing_enabled: Option<bool>,
    pub device_name: Option<Seq<char>>,
}

impl View for Settings {
    type V = SettingsView;

    open spec fn view(&self) -> SettingsView {
        SettingsView {
            author_name: opt_text(self.author_name),
            reading_font: opt_text(self.reading_font),
            reading_size_px: self.reading_size_px,
            reading_leading: self.reading_leading,
            reading_verse_spacing: self.reading_verse_spacing,
            reading_show_verse_numbers: self.reading_show_verse_numbers,
            keybindings: match self.keybindings {
                Some(saved) => Some(saved@),
                None => None,
            },
            lan_sharing_enabled: self.lan_sharing_enabled,
            device_name: opt_text(self.device_name),
        }
    }
}

impl SettingsView {
    /// No field was ever set.
    pub open spec fn unset() -> SettingsView {
        SettingsView {
            author_name: None,
            reading_font: None,
            reading_size_px: None,
            reading_leading: None,
            reading_verse_spacing: None,
            reading_show_verse_numbers: None,
            keybindings: None,
            lan_sharing_enabled: None,
            device_name: None,
        }
    }

    /// The shortcuts that were saved.
    pub open spec fn saved_keys(self) -> Seq<(String, KeyBinding)> {
        match self.keybindings {
            Some(saved) => saved,
            None => Seq::empty(),
        }
    }
}

/// The size of the text where none was set: 17.
pub const DEFAULT_SIZE: i64 = 0x4031000000000000;

/// The leading where none was set: 1.75.
pub const DEFAULT_LEADING: i64 = 0x3ffc000000000000;

/// The space between stanzas where none was set: 2.
pub const DEFAULT_VERSE_SPACING: i64 = 0x4000000000000000;

/// How the reader wants books to be set.
pub struct ReadingSettings {
    pub font: String,
    pub size_px: i64,
    pub leading: i64,
    pub verse_spacing: i64,
}

/// A number that was set, or another one.
pub open spec fn set_or(value: Option<i64>, default: i64) -> i64 {
    match value {
        Some(v) => v,
        None => default,
    }
}

pub(crate) fn value_or(value: Option<i64>, default: i64) -> (r: i64)
    ensures
        r == set_or(value, default),
{
    match value {
        Some(v) => v,
        None => default,
    }
}

/// The name of the font that was chosen.
pub open spec fn font_of(s: SettingsView) -> Seq<char> {
    match s.reading_font {
        Some(f) => f,
        None => "literata"@,
    }
}

impl Settings {
    /// Settings in which nothing was set.
    pub fn new() -> (r: Settings)
        ensures
            r@ == SettingsView::unset(),
    {
        Settings {
            author_name: None,
            reading_font: None,
            reading_size_px: None,
            reading_leading: None,
            reading_verse_spacing: None,
            reading_show_verse_numbers: None,
            keybindings: None,
            lan_sharing_enabled: None,
            device_name: None,
        }
    }
}

/// The settings with another name under which annotations are written.
pub open spec fn with_author_name(s: SettingsView, name: Seq<char>) -> SettingsView {
    SettingsView { author_name: Some(name), ..s }
}

/// The settings with another way in which the reader wants books to be set.
pub open spec fn with_reading(
    s: SettingsView,
    font: Seq<char>,
    size: i64,
    leading: i64,
    spacing: i64,
) -> SettingsView {
    SettingsView {
        reading_font: Some(font),
        reading_size_px: Some(size),
        reading_leading: Some(leading),
        reading_verse_spacing: Some(spacing),
        ..s
    }
}

/// The settings with other shortcuts.
pub open spec fn with_keys(s: SettingsView, saved: Seq<(String, KeyBinding)>) -> SettingsView {
    SettingsView { keybindings: Some(saved), ..s }
}

/// Sets the name under which annotations are written.
pub fn set_author_name(settings: &mut Settings, name: String)
    ensures
        final(settings)@ == with_author_name(old(settings)@, name@),
{
    settings.author_name = Some(name);
}

/// How the reader wants books to be set, with what is customary for what was never set.
pub fn get_reading_settings(settings: &Settings) -> (r: ReadingSettings)
    ensures
        r.font@ == font_of(settings@),
        r.size_px == set_or(settings@.reading_size_px, DEFAULT_SIZE),
        r.leading == set_or(settings@.reading_leading, DEFAULT_LEADING),
        r.verse_spacing == set_or(settings@.reading_verse_spacing, DEFAULT_VERSE_SPACING),
{
    ReadingSettings {
        font: match &settings.reading_font {
            Some(f) => f.clone(),
            None => "literata".to_owned(),
        },
        size_px: value_or(settings.reading_size_px, DEFAULT_SIZE),
        leading: value_or(settings.reading_leading, DEFAULT_LEADING),
        verse_spacing: value_or(settings.reading_verse_spacing, DEFAULT_VERSE_SPACING),
    }
}

/// Sets how the reader wants books to be set.
pub fn set_reading_settings(settings: &mut Settings, reading: ReadingSettings)
    ensures
        final(settings)@ == with_reading(
            old(settings)@,
            reading.font@,
            reading.size_px,
            reading.leading,
            reading.verse_spacing,
        ),
{
    let ReadingSettings { font, size_px, leading, verse_spacing } = reading;
    settings.reading_font = Some(font);
    settings.reading_size_px = Some(size_px);
    settings.reading_leading = Some(leading);
    settings.reading_verse_spacing = Some(verse_spacing);
}

/// Saves the shortcut of an action, and takes it from the action that had it.
pub fn save_binding(settings: &mut Settings, action: Action, binding: KeyBinding)
    ensures
        final(settings)@ == with_keys(old(settings)@, final(settings)@.saved_keys()),
        forall|id: Seq<char>| #[trigger]
            saved_under(
                final(settings)@.saved_keys(),
                id,
                final(settings)@.saved_keys().len() as int,
            ) == kept_after(old(settings)@.saved_keys(), id, action, binding),
{
    let saved = match &settings.keybindings {
        Some(saved) => save(saved, action, binding),
        None => {
            let none: Vec<(String, KeyBinding)> = Vec::new();
            assert(none@ =~= settings@.saved_keys());
            save(&none, action, binding)
        },
    };
    settings.keybindings = Some(saved);
}

/// Each part of the application that changes the settings leaves alone what the others have set,
/// so that it makes no difference which of them comes first.
pub proof fn settings_keep_unrelated_fields(
    before: SettingsView,
    name: Seq<char>,
    font: Seq<char>,
    size: i64,
    leading: i64,
    spacing: i64,
    saved: Seq<(String, KeyBinding)>,
)
    ensures
        with_reading(before, font, size, leading, spacing).author_name == before.author_name,
        with_keys(before, saved).author_name == before.author_name,
        with_keys(before, saved).reading_font == before.reading_font,
        with_author_name(before, name).saved_keys() == before.saved_keys(),
        with_reading(with_author_name(before, name), font, size, leading, spacing) == with_author_name(
            with_reading(before, font, size, leading, spacing),
            name,
        ),
        with_keys(with_author_name(before, name), saved) == with_author_name(
            with_keys(before, saved),
            name,
        ),
        with_keys(with_reading(before, font, size, leading, spacing), saved) == with_reading(
            with_keys(before, saved),
            font,
            size,
            leading,
            spacing,
        ),
{
}

} // verus!
