//! Values are found under their names, and numbers read as they are written.

use vstd::prelude::*;

use super::definitions::lemma_decimal_value;
use crate::appearance::{shown_value, with_value, Measure};
use crate::fonts::{family_from, font_at, FONT_COUNT};
use crate::json::{field_from, JsonView};
use crate::keybindings::{current, default_of, display_parts, pressed, saved_under, Action};
use crate::media::{without_root, written_id};
use crate::node_index::{chapter_target, mark_from, topmost};
use crate::persistence::KeyBinding;
use crate::reader_page::{effect_of, two_digits, KeyEffect};
use crate::recording::{averaged, frame_end, quotient, sum};
use crate::settings::{font_of, with_reading, SettingsView};
use crate::text::{decimal, digit};
use crate::tree::{attr_from, AttrView};

verus! {

/// A field of an object is the first of its name, and there is none where none has it.
pub proof fn fields_are_found_by_name(fields: Seq<(Seq<char>, JsonView)>, name: Seq<char>, k: int)
    ensures
        0 <= k < fields.len() && fields[k].0 == name && (forall|j: int|
            0 <= j < k ==> (#[trigger] fields[j]).0 != name) ==> JsonView::Object(fields).field(name) == Some(
            fields[k].1,
        ),
        (forall|j: int| 0 <= j < fields.len() ==> (#[trigger] fields[j]).0 != name) ==> JsonView::Object(fields).field(
            name,
        ) is None,
{
    lemma_field(fields, name, k, 0);
}

proof fn lemma_field(fields: Seq<(Seq<char>, JsonView)>, name: Seq<char>, k: int, from: int)
    requires
        0 <= from,
    ensures
        from <= k < fields.len() && fields[k].0 == name && (forall|j: int|
            from <= j < k ==> (#[trigger] fields[j]).0 != name) ==> field_from(fields, name, from) == Some(fields[k].1),
        (forall|j: int| from <= j < fields.len() ==> (#[trigger] fields[j]).0 != name) ==> field_from(
            fields,
            name,
            from,
        ) is None,
    decreases fields.len() - from,
{
    if from < fields.len() {
        lemma_field(fields, name, k, from + 1);
    }
}

/// An attribute is the first of its name and namespace, and there is none where none has them.
pub proof fn attributes_are_found_by_name(attrs: Seq<AttrView>, namespace: Seq<char>, name: Seq<char>, k: int)
    ensures
        ({
            let fits = |j: int| attrs[j].namespace == namespace && attrs[j].local == name;
            &&& 0 <= k < attrs.len() && fits(k) && (forall|j: int| 0 <= j < k ==> !#[trigger] fits(j)) ==> attr_from(
                attrs,
                namespace,
                name,
                0,
            ) == Some(attrs[k].value)
            &&& (forall|j: int| 0 <= j < attrs.len() ==> !#[trigger] fits(j)) ==> attr_from(
                attrs,
                namespace,
                name,
                0,
            ) is None
        }),
{
    let fits = |j: int| attrs[j].namespace == namespace && attrs[j].local == name;
    if 0 <= k < attrs.len() && fits(k) && (forall|j: int| 0 <= j < k ==> !#[trigger] fits(j)) {
        assert forall|j: int| 0 <= j < k implies !((#[trigger] attrs[j]).namespace == namespace && attrs[j].local
            == name) by {
            assert(!fits(j));
        }
        lemma_attr(attrs, namespace, name, k, 0);
    }
    if forall|j: int| 0 <= j < attrs.len() ==> !#[trigger] fits(j) {
        assert forall|j: int| 0 <= j < attrs.len() implies !((#[trigger] attrs[j]).namespace == namespace
            && attrs[j].local == name) by {
            assert(!fits(j));
        }
        lemma_attr(attrs, namespace, name, attrs.len() as int, 0);
    }
}

proof fn lemma_attr(attrs: Seq<AttrView>, namespace: Seq<char>, name: Seq<char>, k: int, from: int)
    requires
        0 <= from <= k <= attrs.len(),
        k < attrs.len() ==> attrs[k].namespace == namespace && attrs[k].local == name,
        forall|j: int| 0 <= j < k ==> !((#[trigger] attrs[j]).namespace == namespace && attrs[j].local == name),
    ensures
        attr_from(attrs, namespace, name, from) == (if k < attrs.len() {
            Some(attrs[k].value)
        } else {
            None
        }),
    decreases k - from,
{
    if from < k {
        lemma_attr(attrs, namespace, name, k, from + 1);
    }
}

/// A shortcut is the last that was saved for its action, and the action's own where none was.
pub proof fn shortcuts_are_the_last_saved(saved: Seq<(String, KeyBinding)>, a: Action, k: int)
    ensures
        ({
            let id = crate::keybindings::action_id(a);
            &&& 0 <= k < saved.len() && saved[k].0@ == id && (forall|j: int|
                k < j < saved.len() ==> (#[trigger] saved[j]).0@ != id) ==> current(saved, a) == saved[k].1
            &&& (forall|j: int| 0 <= j < saved.len() ==> (#[trigger] saved[j]).0@ != id) ==> current(saved, a)
                == default_of(a)
        }),
{
    lemma_saved(saved, crate::keybindings::action_id(a), k, saved.len() as int);
}

proof fn lemma_saved(saved: Seq<(String, KeyBinding)>, id: Seq<char>, k: int, n: int)
    requires
        0 <= n <= saved.len(),
    ensures
        0 <= k < n && saved[k].0@ == id && (forall|j: int| k < j < n ==> (#[trigger] saved[j]).0@ != id)
            ==> saved_under(saved, id, n) == Some(saved[k].1),
        (forall|j: int| 0 <= j < n ==> (#[trigger] saved[j]).0@ != id) ==> saved_under(saved, id, n) is None,
    decreases n,
{
    if n > 0 {
        lemma_saved(saved, id, k, n - 1);
    }
}

/// Only control, alt and shift tell one shortcut from another.
pub proof fn only_some_modifiers_count(key: u32, modifiers: u32, other: u32)
    ensures
        pressed(key, modifiers).keyval == key,
        modifiers & 4 == other & 4 && modifiers & 8 == other & 8 && modifiers & 1 == other & 1 <==> pressed(
            key,
            modifiers,
        ) == pressed(key, other),
{
    assert(modifiers & 4 == other & 4 && modifiers & 8 == other & 8 && modifiers & 1 == other & 1 <==> modifiers & 13
        == other & 13) by (bit_vector);
}

/// A shortcut is shown with its modifiers in front of its key: control, alt, shift.
pub proof fn modifiers_are_shown_before_the_key(b: KeyBinding, key: Seq<char>)
    ensures
        ({
            let parts = display_parts(b, Some(key));
            &&& parts.last() == key
            &&& b.modifiers & 4 != 0 ==> parts[0] == "Ctrl"@
            &&& b.modifiers & 4 == 0 && b.modifiers & 8 != 0 ==> parts[0] == "Alt"@
            &&& b.modifiers & 4 != 0 && b.modifiers & 8 != 0 ==> parts[1] == "Alt"@
            &&& b.modifiers & 1 != 0 ==> parts[parts.len() - 2] == "Shift"@
            &&& parts.len() == 1 + (if b.modifiers & 4 != 0 {
                1int
            } else {
                0
            }) + (if b.modifiers & 8 != 0 {
                1int
            } else {
                0
            }) + (if b.modifiers & 1 != 0 {
                1int
            } else {
                0
            })
        }),
{
}

// ---------------------------------------------------------------------------
// Settings
// ---------------------------------------------------------------------------

/// What is set is read back, and nothing else changes with it; what is not set has its default.
pub proof fn settings_are_read_back(
    s: SettingsView,
    font: Seq<char>,
    size: i64,
    leading: i64,
    spacing: i64,
    measure: Measure,
    other: Measure,
    value: i64,
)
    ensures
        ({
            let after = with_reading(s, font, size, leading, spacing);
            &&& font_of(after) == font
            &&& shown_value(after, Measure::Size) == size
            &&& shown_value(after, Measure::Leading) == leading
            &&& shown_value(after, Measure::VerseSpacing) == spacing
            &&& after.keybindings == s.keybindings && after.author_name == s.author_name && after.device_name
                == s.device_name && after.lan_sharing_enabled == s.lan_sharing_enabled
                && after.reading_show_verse_numbers == s.reading_show_verse_numbers
        }),
        shown_value(with_value(s, measure, value), measure) == value,
        measure != other ==> shown_value(with_value(s, measure, value), other) == shown_value(s, other),
        font_of(with_value(s, measure, value)) == font_of(s),
        font_of(SettingsView::unset()) == "literata"@,
        shown_value(SettingsView::unset(), Measure::Size) == 0x4031000000000000,
        shown_value(SettingsView::unset(), Measure::Leading) == 0x3ffc000000000000,
        shown_value(SettingsView::unset(), Measure::VerseSpacing) == 0x4000000000000000,
{
}

/// Opposite keys have opposite effects, and the keys for chapters lead to the nearest one on their
/// side of the node at the top.
pub proof fn keys_do_what_they_are_for(marks: Seq<(i64, usize)>, chapters: Seq<usize>, top: int, id: i64, mark: usize)
    ensures
        effect_of(Action::ScrollDown, marks, chapters, top) == KeyEffect::ScrollBy(80),
        effect_of(Action::ScrollUp, marks, chapters, top) == KeyEffect::ScrollBy((-80) as i32),
        effect_of(Action::PageDown, marks, chapters, top) == KeyEffect::PageBy(1),
        effect_of(Action::PageUp, marks, chapters, top) == KeyEffect::PageBy((-1) as i32),
        effect_of(Action::ToggleSidebar, marks, chapters, top) == KeyEffect::ToggleSidebar,
        effect_of(Action::BackToLibrary, marks, chapters, top) == KeyEffect::BackToLibrary,
        topmost(marks, top) == Some(id) && mark_from(marks, id, 0) == Some(mark) ==> {
            &&& effect_of(Action::NextChapter, marks, chapters, top) == KeyEffect::ShowOffset(
                chapter_target(chapters, mark as int, true),
            )
            &&& effect_of(Action::PrevChapter, marks, chapters, top) == KeyEffect::ShowOffset(
                chapter_target(chapters, mark as int, false),
            )
        },
{
}

// ---------------------------------------------------------------------------
// Numbers
// ---------------------------------------------------------------------------

proof fn lemma_first_sign(n: nat)
    ensures
        decimal(n)[0] != '-',
        decimal(n).len() > 0,
    decreases n,
{
    if n >= 10 {
        lemma_first_sign(n / 10);
    }
}

/// An id is read as it is written, with or without a sign in front.
pub proof fn ids_are_read_as_they_are_written(n: nat)
    requires
        n <= i64::MAX,
    ensures
        written_id(decimal(n)) == Some(n as int),
        written_id(seq!['-'] + decimal(n)) == Some(-(n as int)),
        written_id(seq!['+'] + decimal(n)) == Some(n as int),
        written_id(Seq::empty()) is None,
{
    lemma_decimal_value(n);
    lemma_first_sign(n);
    assert((seq!['-'] + decimal(n)).skip(1) =~= decimal(n));
    assert((seq!['+'] + decimal(n)).skip(1) =~= decimal(n));
}

/// Seconds are written with two digits, which say their number.
pub proof fn seconds_have_two_digits(n: nat)
    requires
        n < 60,
    ensures
        two_digits(n) == seq![digit(n / 10), digit(n % 10)],
{
    reveal_strlit("0");
    reveal_with_fuel(decimal, 2);
    assert(two_digits(n) =~= seq![digit(n / 10), digit(n % 10)]);
}

/// Slashes in front of a path are no part of it.
pub proof fn slashes_in_front_are_cut_off(path: Seq<char>)
    ensures
        without_root(seq!['/'] + path) == without_root(path),
        path.len() == 0 || path[0] != '/' ==> without_root(path) == path,
{
    assert((seq!['/'] + path).drop_first() =~= path);
}

/// A font is known by its id; any other id stands for the first.
pub proof fn fonts_are_known_by_their_ids(id: Seq<char>, k: int)
    ensures
        0 <= k < 8 && font_at(k).0 == id && (forall|j: int| 0 <= j < k ==> (#[trigger] font_at(j)).0 != id)
            ==> family_from(id, 0) == font_at(k).2,
        (forall|j: int| 0 <= j < 8 ==> (#[trigger] font_at(j)).0 != id) ==> family_from(id, 0) == font_at(0).2,
{
    lemma_font(id, k, 0);
}

proof fn lemma_font(id: Seq<char>, k: int, from: int)
    requires
        0 <= from,
    ensures
        from <= k < FONT_COUNT && font_at(k).0 == id && (forall|j: int|
            from <= j < k ==> (#[trigger] font_at(j)).0 != id) ==> family_from(id, from) == font_at(k).2,
        (forall|j: int| from <= j < FONT_COUNT ==> (#[trigger] font_at(j)).0 != id) ==> family_from(id, from)
            == font_at(0).2,
    decreases FONT_COUNT - from,
{
    if from < FONT_COUNT {
        lemma_font(id, k, from + 1);
    }
}

// ---------------------------------------------------------------------------
// Samples
// ---------------------------------------------------------------------------

/// The samples `lo..hi` together.
pub open spec fn together(data: Seq<i16>, lo: int, hi: int) -> int {
    data.subrange(lo, hi).fold_left(0int, |a: int, s: i16| a + s)
}

proof fn lemma_sum(data: Seq<i16>, lo: int, hi: int)
    requires
        0 <= lo <= hi <= data.len(),
    ensures
        sum(data, lo, hi) == together(data, lo, hi),
    decreases hi - lo,
{
    reveal_with_fuel(Seq::fold_left, 2);
    if lo < hi {
        lemma_sum(data, lo, hi - 1);
        assert(data.subrange(lo, hi).drop_last() =~= data.subrange(lo, hi - 1));
    }
}

/// Every frame of samples becomes one: the sum of its channels, divided by how many there are,
/// towards zero.
pub proof fn frames_become_single_samples(data: Seq<i16>, channels: int, k: int)
    requires
        channels > 0,
        0 <= k,
        (k + 1) * channels <= data.len(),
    ensures
        k < averaged(data, channels, 0).len(),
        ({
            let whole = together(data, k * channels, (k + 1) * channels);
            averaged(data, channels, 0)[k] == (if whole < 0 {
                -((-whole) / channels)
            } else {
                whole / channels
            }) as i16
        }),
{
    assert(k * channels + channels == (k + 1) * channels) by (nonlinear_arith);
    assert(0 <= k * channels) by (nonlinear_arith)
        requires
            0 <= k,
            channels > 0,
    ;
    lemma_averaged(data, channels, 0, k);
    lemma_sum(data, k * channels, (k + 1) * channels);
}

proof fn lemma_averaged(data: Seq<i16>, channels: int, lo: int, k: int)
    requires
        channels > 0,
        0 <= k,
        0 <= lo,
        lo + k * channels + channels <= data.len(),
    ensures
        k < averaged(data, channels, lo).len(),
        averaged(data, channels, lo)[k] == quotient(
            sum(data, lo + k * channels, lo + k * channels + channels),
            channels,
        ) as i16,
    decreases k,
{
    assert(0 <= k * channels) by (nonlinear_arith)
        requires
            0 <= k,
            channels > 0,
    ;
    let hi = frame_end(data.len() as int, channels, lo);
    assert(hi == lo + channels);
    if k > 0 {
        assert(k * channels == (k - 1) * channels + channels) by (nonlinear_arith);
        lemma_averaged(data, channels, hi, k - 1);
        assert(averaged(data, channels, lo)[k] == averaged(data, channels, hi)[k - 1]);
    } else {
        assert(k * channels == 0) by (nonlinear_arith)
            requires
                k == 0,
        ;
    }
}

/// One channel stays as it is.
pub proof fn one_channel_stays(data: Seq<i16>)
    ensures
        averaged(data, 1, 0) == data,
{
    lemma_one_channel(data, 0);
    assert(data.skip(0) =~= data);
}

proof fn lemma_one_channel(data: Seq<i16>, lo: int)
    requires
        0 <= lo <= data.len(),
    ensures
        averaged(data, 1, lo) == data.skip(lo),
    decreases data.len() - lo,
{
    reveal_with_fuel(sum, 2);
    if lo < data.len() {
        lemma_one_channel(data, lo + 1);
        assert(sum(data, lo, lo + 1) == data[lo]);
        assert(quotient(data[lo] as int, 1) == data[lo]);
        assert(seq![data[lo]] + data.skip(lo + 1) =~= data.skip(lo));
    } else {
        assert(data.skip(lo) =~= Seq::<i16>::empty());
    }
}

} // verus!
