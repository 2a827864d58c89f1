//! The fonts that a book can be read in.

use vstd::prelude::*;

use crate::text::same_text;

verus! {

/// A font: the name it is kept under, what it is called, and the family it is loaded by.
pub struct ReadingFont {
    pub id: &'static str,
    pub label: &'static str,
    pub family: &'static str,
}

/// The id, the label and the family of the font at a place of the list.
pub open spec fn font_at(k: int) -> (Seq<char>, Seq<char>, Seq<char>) {
    if k == 0 {
        ("literata"@, "Literata"@, "Literata"@)
    } else if k == 1 {
        ("lora"@, "Lora"@, "Lora"@)
    } else if k == 2 {
        ("crimson-pro"@, "Crimson Pro"@, "Crimson Pro"@)
    } else if k == 3 {
        ("spectral"@, "Spectral"@, "Spectral"@)
    } else if k == 4 {
        ("im-fell-english"@, "IM Fell English"@, "IM FELL English"@)
    } else if k == 5 {
        ("unifraktur-maguntia"@, "Unifraktur"@, "UnifrakturMaguntia"@)
    } else if k == 6 {
        ("source-sans-3"@, "Source Sans 3"@, "Source Sans 3 ExtraLight"@)
    } else {
        ("libre-franklin"@, "Libre Franklin"@, "Libre Franklin Thin"@)
    }
}

/// The number of fonts.
pub const FONT_COUNT: usize = 8;

/// The family of the first of the fonts from `k` on that has an id; that of the first font where
/// none has.
pub open spec fn family_from(id: Seq<char>, k: int) -> Seq<char>
    decreases FONT_COUNT - k,
{
    if k < 0 || k >= FONT_COUNT {
        "Literata"@
    } else if font_at(k).0 == id {
        font_at(k).2
    } else {
        family_from(id, k + 1)
    }
}

/// The fonts, in the order in which they are offered.
pub fn reading_fonts() -> (r: Vec<ReadingFont>)
    ensures
        r@.len() == FONT_COUNT,
        forall|k: int|
            0 <= k < FONT_COUNT ==> ((#[trigger] r@[k]).id@, r@[k].label@, r@[k].family@) == font_at(k),
{
    vec![
        ReadingFont { id: "literata", label: "Literata", family: "Literata" },
        ReadingFont { id: "lora", label: "Lora", family: "Lora" },
        ReadingFont { id: "crimson-pro", label: "Crimson Pro", family: "Crimson Pro" },
        ReadingFont { id: "spectral", label: "Spectral", family: "Spectral" },
        ReadingFont { id: "im-fell-english", label: "IM Fell English", family: "IM FELL English" },
        ReadingFont { id: "unifraktur-maguntia", label: "Unifraktur", family: "UnifrakturMaguntia" },
        ReadingFont { id: "source-sans-3", label: "Source Sans 3", family: "Source Sans 3 ExtraLight" },
        ReadingFont { id: "libre-franklin", label: "Libre Franklin", family: "Libre Franklin Thin" },
    ]
}

/// The family of the font with an id; that of the first font where there is none.
pub fn family_for(font_id: &str) -> (r: &'static str)
    ensures
        r@ == family_from(font_id@, 0),
{
    let fonts = reading_fonts();
    let mut k: usize = 0;
    while k < fonts.len()
        invariant
            k <= FONT_COUNT,
            fonts@.len() == FONT_COUNT,
            forall|k: int|
                0 <= k < FONT_COUNT ==> ((#[trigger] fonts@[k]).id@, fonts@[k].label@, fonts@[k].family@) == font_at(k),
            family_from(font_id@, 0) == family_from(font_id@, k as int),
        decreases FONT_COUNT - k,
    {
        assert((fonts@[k as int].id@, fonts@[k as int].label@, fonts@[k as int].family@) == font_at(k as int));
        if same_text(fonts[k].id, font_id) {
            return fonts[k].family;
        }
        k += 1;
    }
    "Literata"
}

} // verus!
