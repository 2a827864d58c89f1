//! How books and pictures are set on the screen. Sizes and distances are the bits of
//! double-precision numbers, which are ordered like the numbers.

use vstd::prelude::*;

use crate::double::{
    difference, lemma_integer, lemma_small, of_bits, product, quotient, round, rounded, sum, Double,
    DoubleView, LEAST,
};
use crate::fonts::{family_for, family_from};
use crate::settings::{
    font_of, set_or, value_or, Settings, SettingsView, DEFAULT_LEADING, DEFAULT_SIZE,
    DEFAULT_VERSE_SPACING,
};

verus! {

/// The smallest and the greatest size of the text: 14 and 24.
pub const SIZE_MIN: i64 = 0x402c000000000000;

pub const SIZE_MAX: i64 = 0x4038000000000000;

/// The smallest and the greatest leading: 1.3 and 2.2.
pub const LEADING_MIN: i64 = 0x3ff4cccccccccccd;

pub const LEADING_MAX: i64 = 0x400199999999999a;

/// The smallest and the greatest space between stanzas: 0.5 and 6.
pub const VERSE_SPACING_MIN: i64 = 0x3fe0000000000000;

pub const VERSE_SPACING_MAX: i64 = 0x4018000000000000;

/// The numbers 1, 2, 8, 10 and 16.
pub const ONE: i64 = 0x3ff0000000000000;

pub const TWO: i64 = 0x4000000000000000;

pub const EIGHT: i64 = 0x4020000000000000;

pub const TEN: i64 = 0x4024000000000000;

pub const SIXTEEN: i64 = 0x4030000000000000;

/// A number, brought between two others.
pub open spec fn within(n: int, lo: int, hi: int) -> int {
    if n < lo {
        lo
    } else if n > hi {
        hi
    } else {
        n
    }
}

fn bring_within(n: i64, lo: i64, hi: i64) -> (r: i64)
    requires
        lo <= hi,
    ensures
        r == within(n as int, lo as int, hi as int),
        lo <= r <= hi,
{
    if n < lo {
        lo
    } else if n > hi {
        hi
    } else {
        n
    }
}

// ---------------------------------------------------------------------------
// Text
// ---------------------------------------------------------------------------

/// How the reading pane sets its text: the font and its size, and the pixels between its lines.
pub struct ReadingStyle {
    pub family: &'static str,
    pub size: i64,
    pub below_paragraph: i32,
    pub below_blockquote: i32,
    pub below_verse: i32,
    pub above_verse: i32,
    pub show_verse_numbers: bool,
}

/// The leading, as a multiple of the customary one.
pub open spec fn leading_scale(s: SettingsView) -> DoubleView {
    quotient(
        of_bits(
            within(
                set_or(s.reading_leading, DEFAULT_LEADING) as int,
                LEADING_MIN as int,
                LEADING_MAX as int,
            ),
        ),
        of_bits(DEFAULT_LEADING as int),
    )
}

/// A distance at a scale, in whole pixels.
pub open spec fn pixels(distance: DoubleView, scale: DoubleView) -> nat {
    product(distance, scale).nearest()
}

fn to_pixels(distance: &Double, scale: &Double) -> (r: i32)
    requires
        distance@.is_full(),
        scale@.is_full(),
        -60 <= distance.e <= -48,
        -60 <= scale.e <= -48,
    ensures
        r == pixels(distance@, scale@),
{
    let p = distance.times(scale);
    proof {
        lemma_small(p@);
    }
    p.nearest_integer() as i32
}

/// How the settings ask for text to be set.
pub fn apply_settings(settings: &Settings) -> (r: ReadingStyle)
    ensures
        r.family@ == family_from(font_of(settings@), 0),
        r.size == within(
            set_or(settings@.reading_size_px, DEFAULT_SIZE) as int,
            SIZE_MIN as int,
            SIZE_MAX as int,
        ),
        r.below_paragraph == pixels(of_bits(TEN as int), leading_scale(settings@)),
        r.below_blockquote == pixels(of_bits(EIGHT as int), leading_scale(settings@)),
        r.below_verse == pixels(of_bits(TWO as int), leading_scale(settings@)),
        r.above_verse == pixels(
            of_bits(
                within(
                    set_or(settings@.reading_verse_spacing, DEFAULT_VERSE_SPACING) as int,
                    VERSE_SPACING_MIN as int,
                    VERSE_SPACING_MAX as int,
                ),
            ),
            of_bits(SIXTEEN as int),
        ),
        r.show_verse_numbers == (settings@.reading_show_verse_numbers != Some(false)),
{
    let family = match &settings.reading_font {
        Some(f) => family_for(f.as_str()),
        None => family_for("literata"),
    };
    let size = bring_within(value_or(settings.reading_size_px, DEFAULT_SIZE), SIZE_MIN, SIZE_MAX);
    let leading = bring_within(
        value_or(settings.reading_leading, DEFAULT_LEADING),
        LEADING_MIN,
        LEADING_MAX,
    );
    let scale = Double::from_bits(leading).over(&Double::from_bits(DEFAULT_LEADING));
    let spacing = bring_within(
        value_or(settings.reading_verse_spacing, DEFAULT_VERSE_SPACING),
        VERSE_SPACING_MIN,
        VERSE_SPACING_MAX,
    );
    ReadingStyle {
        family,
        size,
        below_paragraph: to_pixels(&Double::from_bits(TEN), &scale),
        below_blockquote: to_pixels(&Double::from_bits(EIGHT), &scale),
        below_verse: to_pixels(&Double::from_bits(TWO), &scale),
        above_verse: to_pixels(&Double::from_bits(spacing), &Double::from_bits(SIXTEEN)),
        show_verse_numbers: match settings.reading_show_verse_numbers {
            Some(b) => b,
            None => true,
        },
    }
}

// ---------------------------------------------------------------------------
// Steps
// ---------------------------------------------------------------------------

/// What can be made greater or smaller by steps.
#[derive(Clone, Copy, Debug, PartialEq, Eq, Structural)]
pub enum Measure {
    Size,
    Leading,
    VerseSpacing,
}

/// The step of a measure, and the range in which it stays. The steps are 1, 0.05 and 0.25.
pub open spec fn range_of(measure: Measure) -> (i64, i64, i64) {
    match measure {
        Measure::Size => (0x3ff0000000000000i64, SIZE_MIN, SIZE_MAX),
        Measure::Leading => (0x3fa999999999999ai64, LEADING_MIN, LEADING_MAX),
        Measure::VerseSpacing => (0x3fd0000000000000i64, VERSE_SPACING_MIN, VERSE_SPACING_MAX),
    }
}

/// The number 1024, from which no step leads back into a range.
pub const FAR_ABOVE: i64 = 0x4090000000000000;

/// A number after a step up or down, brought back into the range. A number that is too small for
/// the step to reach the range stays below it, and one that is far above it stays above it.
pub open spec fn stepped(current: i64, step: i64, lo: i64, hi: i64, up: bool) -> int {
    let c = of_bits(current as int);
    let s = of_bits(step as int);
    if current >= FAR_ABOVE {
        hi as int
    } else if current < LEAST || c.e < s.e || (c.e == s.e && !up) {
        lo as int
    } else if up {
        within(sum(c, s).bits(), lo as int, hi as int)
    } else {
        within(difference(c, s).bits(), lo as int, hi as int)
    }
}

fn take_step(current: i64, step: i64, lo: i64, hi: i64, up: bool) -> (r: i64)
    requires
        0x3fa0000000000000 <= step <= 0x3ff0000000000000,
        lo <= hi,
    ensures
        r == stepped(current, step, lo, hi, up),
{
    if current >= FAR_ABOVE {
        return hi;
    }
    if current < LEAST as i64 {
        return lo;
    }
    let c = Double::from_bits(current);
    let s = Double::from_bits(step);
    if c.e < s.e || (c.e == s.e && !up) {
        return lo;
    }
    if up {
        bring_within(c.plus(&s).to_bits(), lo, hi)
    } else {
        bring_within(c.minus(&s).to_bits(), lo, hi)
    }
}

/// The value of a measure that is shown, whether it was set or not.
pub open spec fn shown_value(s: SettingsView, measure: Measure) -> i64 {
    match measure {
        Measure::Size => set_or(s.reading_size_px, DEFAULT_SIZE),
        Measure::Leading => set_or(s.reading_leading, DEFAULT_LEADING),
        Measure::VerseSpacing => set_or(s.reading_verse_spacing, DEFAULT_VERSE_SPACING),
    }
}

/// The settings with another value of a measure.
pub open spec fn with_value(s: SettingsView, measure: Measure, value: i64) -> SettingsView {
    match measure {
        Measure::Size => SettingsView { reading_size_px: Some(value), ..s },
        Measure::Leading => SettingsView { reading_leading: Some(value), ..s },
        Measure::VerseSpacing => SettingsView { reading_verse_spacing: Some(value), ..s },
    }
}

/// Makes a measure greater or smaller by one step, and gives its new value.
pub fn step_measure(settings: &mut Settings, measure: Measure, up: bool) -> (r: i64)
    ensures
        ({
            let (step, lo, hi) = range_of(measure);
            r == stepped(shown_value(old(settings)@, measure), step, lo, hi, up)
        }),
        final(settings)@ == with_value(old(settings)@, measure, r),
{
    match measure {
        Measure::Size => {
            let v = take_step(
                value_or(settings.reading_size_px, DEFAULT_SIZE),
                0x3ff0000000000000,
                SIZE_MIN,
                SIZE_MAX,
                up,
            );
            settings.reading_size_px = Some(v);
            v
        },
        Measure::Leading => {
            let v = take_step(
                value_or(settings.reading_leading, DEFAULT_LEADING),
                0x3fa999999999999a,
                LEADING_MIN,
                LEADING_MAX,
                up,
            );
            settings.reading_leading = Some(v);
            v
        },
        Measure::VerseSpacing => {
            let v = take_step(
                value_or(settings.reading_verse_spacing, DEFAULT_VERSE_SPACING),
                0x3fd0000000000000,
                VERSE_SPACING_MIN,
                VERSE_SPACING_MAX,
                up,
            );
            settings.reading_verse_spacing = Some(v);
            v
        },
    }
}

/// Whatever a measure was, after a step it lies in its range.
pub proof fn steps_stay_in_range(current: i64, measure: Measure, up: bool)
    ensures
        ({
            let (step, lo, hi) = range_of(measure);
            lo <= stepped(current, step, lo, hi, up) <= hi
        }),
{
}

// ---------------------------------------------------------------------------
// Pictures
// ---------------------------------------------------------------------------

/// The width and height of the window in which a picture is shown by itself: 900 and 700.
pub const VIEWPORT_WIDTH: i64 = 0x408c200000000000;

pub const VIEWPORT_HEIGHT: i64 = 0x4085e00000000000;

/// The smallest and the greatest scale that can be chosen: 0.1 and 4.
pub const MIN_SCALE: i64 = 0x3fb999999999999a;

pub const MAX_SCALE: i64 = 0x4010000000000000;

/// By how much a picture grows with one turn of the wheel: 1.1.
pub const ZOOM_STEP: i64 = 0x3ff199999999999a;

/// The number 2^-30, below which no picture fits its window.
pub const FAR_BELOW: i64 = 0x3e10000000000000;

/// The lesser of two numbers.
pub open spec fn lesser(a: int, b: int) -> int {
    if a < b {
        a
    } else {
        b
    }
}

/// The bits of the scale at which a side of this length fills a length of the window.
pub open spec fn side_scale(length: i64, side: int) -> int {
    quotient(of_bits(length as int), rounded(side as nat, 0)).bits()
}

fn scale_of_side(length: i64, side: i32) -> (r: i64)
    requires
        0x4080000000000000 <= length <= 0x4090000000000000,
        side > 0,
    ensures
        r == side_scale(length, side as int),
        r >= FAR_BELOW,
{
    let whole = Double::from_bits(length);
    let n = round(side as u128, 0);
    proof {
        lemma_integer(side as nat);
    }
    let q = whole.over(&n);
    q.to_bits()
}

/// The scale at which a picture of this size is first shown by itself: as large as the window
/// allows, but no larger than it is.
pub fn fit_scale(width: i32, height: i32) -> (r: Option<i64>)
    ensures
        r == (if width <= 0 || height <= 0 {
            None
        } else {
            Some(
                lesser(
                    lesser(
                        side_scale(VIEWPORT_WIDTH, width as int),
                        side_scale(VIEWPORT_HEIGHT, height as int),
                    ),
                    ONE as int,
                ) as i64,
            )
        }),
        r matches Some(scale) ==> FAR_BELOW <= scale <= ONE,
{
    if width <= 0 || height <= 0 {
        return None;
    }
    let w = scale_of_side(VIEWPORT_WIDTH, width);
    let h = scale_of_side(VIEWPORT_HEIGHT, height);
    let fit = if w < h {
        w
    } else {
        h
    };
    Some(
        if fit < ONE {
            fit
        } else {
            ONE
        },
    )
}

/// The scale at which a picture is shown where this one is asked for: that one, within what can be
/// chosen.
pub fn set_scale(scale: i64) -> (r: i64)
    ensures
        r == within(scale as int, MIN_SCALE as int, MAX_SCALE as int),
        MIN_SCALE <= r <= MAX_SCALE,
{
    bring_within(scale, MIN_SCALE, MAX_SCALE)
}

/// The scale of a picture after a turn of the wheel, within what can be chosen.
pub fn zoomed(scale: i64, closer: bool) -> (r: i64)
    requires
        FAR_BELOW <= scale <= MAX_SCALE,
    ensures
        r == within(
            product(
                of_bits(scale as int),
                if closer {
                    of_bits(ZOOM_STEP as int)
                } else {
                    quotient(of_bits(ONE as int), of_bits(ZOOM_STEP as int))
                },
            ).bits(),
            MIN_SCALE as int,
            MAX_SCALE as int,
        ),
{
    let step = Double::from_bits(ZOOM_STEP);
    let factor = if closer {
        step
    } else {
        Double::from_bits(ONE).over(&step)
    };
    set_scale(Double::from_bits(scale).times(&factor).to_bits())
}

/// A side of a picture at a scale, in whole pixels, of which there is at least one.
pub open spec fn scaled_side(side: int, scale: i64) -> int {
    let n = product(rounded(side as nat, 0), of_bits(scale as int)).nearest();
    if n < 1 {
        1
    } else if n > i32::MAX {
        i32::MAX as int
    } else {
        n as int
    }
}

fn scale_side(side: i32, scale: i64) -> (r: i32)
    requires
        side > 0,
        FAR_BELOW <= scale <= MAX_SCALE,
    ensures
        r == scaled_side(side as int, scale),
{
    let n = round(side as u128, 0);
    proof {
        lemma_integer(side as nat);
    }
    let p = n.times(&Double::from_bits(scale));
    let pixels = p.nearest_below(i32::MAX as u32);
    if pixels < 1 {
        1
    } else {
        pixels as i32
    }
}

/// The width and height of a picture at a scale.
pub fn scaled_picture(width: i32, height: i32, scale: i64) -> (r: (i32, i32))
    requires
        width > 0,
        height > 0,
        FAR_BELOW <= scale <= MAX_SCALE,
    ensures
        r.0 == scaled_side(width as int, scale),
        r.1 == scaled_side(height as int, scale),
{
    (scale_side(width, scale), scale_side(height, scale))
}

} // verus!
