//! The threshold shader: one shade sample per cell, turned into a glyph by
//! comparing it with a scale of thresholds.
use vstd::prelude::*;

use crate::binary32::{at_most, bits_at_most, lemma_at_most_transitive};

verus! {

/// Bits of the thresholds 0.05, 0.2, 0.3, ..., 0.9 and 1.0 of the scale.
pub const SHADE_005: u32 = 0x3d4c_cccdu32;
pub const SHADE_020: u32 = 0x3e4c_cccdu32;
pub const SHADE_030: u32 = 0x3e99_999au32;
pub const SHADE_040: u32 = 0x3ecc_cccdu32;
pub const SHADE_050: u32 = 0x3f00_0000u32;
pub const SHADE_060: u32 = 0x3f19_999au32;
pub const SHADE_070: u32 = 0x3f33_3333u32;
pub const SHADE_080: u32 = 0x3f4c_cccdu32;
pub const SHADE_090: u32 = 0x3f66_6666u32;
pub const SHADE_100: u32 = 0x3f80_0000u32;

/// The threshold shader: one shade sample per character cell.
pub struct SimpleShader;

/// The glyph of a shade (given by its bits) on the scale: blank up to 0.05,
/// then `.`, `:`, `-`, `=`, `+`, `*`, `#`, `%` up to 0.2, 0.3, ..., 0.9,
/// `@` up to 1.0, and blank above 1.0 or for a NaN.
pub open spec fn scale_glyph(shade: u32) -> char {
    if at_most(shade, SHADE_005) {
        ' '
    } else if at_most(shade, SHADE_020) {
        '.'
    } else if at_most(shade, SHADE_030) {
        ':'
    } else if at_most(shade, SHADE_040) {
        '-'
    } else if at_most(shade, SHADE_050) {
        '='
    } else if at_most(shade, SHADE_060) {
        '+'
    } else if at_most(shade, SHADE_070) {
        '*'
    } else if at_most(shade, SHADE_080) {
        '#'
    } else if at_most(shade, SHADE_090) {
        '%'
    } else if at_most(shade, SHADE_100) {
        '@'
    } else {
        ' '
    }
}

/// How much ink a glyph of the scale puts in a cell: 0 for a blank, then
/// 1 for `.` up to 9 for `@`.
pub open spec fn ink(c: char) -> int {
    if c == '.' {
        1
    } else if c == ':' {
        2
    } else if c == '-' {
        3
    } else if c == '=' {
        4
    } else if c == '+' {
        5
    } else if c == '*' {
        6
    } else if c == '#' {
        7
    } else if c == '%' {
        8
    } else if c == '@' {
        9
    } else {
        0
    }
}

/// The scale is monotone up to 1.0: a brighter shade, not above 1.0, never
/// gets a glyph with less ink. Shades up to 0.05 are all blank, and the
/// glyphs darken step by step to `@` at 1.0.
pub proof fn lemma_scale_monotone(a: u32, b: u32)
    requires
        at_most(a, b),
        at_most(b, SHADE_100),
    ensures
        ink(scale_glyph(a)) <= ink(scale_glyph(b)),
{
    lemma_at_most_transitive(a, b, SHADE_100);
    if at_most(b, SHADE_005) {
        lemma_at_most_transitive(a, b, SHADE_005);
    }
    if at_most(b, SHADE_020) {
        lemma_at_most_transitive(a, b, SHADE_020);
    }
    if at_most(b, SHADE_030) {
        lemma_at_most_transitive(a, b, SHADE_030);
    }
    if at_most(b, SHADE_040) {
        lemma_at_most_transitive(a, b, SHADE_040);
    }
    if at_most(b, SHADE_050) {
        lemma_at_most_transitive(a, b, SHADE_050);
    }
    if at_most(b, SHADE_060) {
        lemma_at_most_transitive(a, b, SHADE_060);
    }
    if at_most(b, SHADE_070) {
        lemma_at_most_transitive(a, b, SHADE_070);
    }
    if at_most(b, SHADE_080) {
        lemma_at_most_transitive(a, b, SHADE_080);
    }
    if at_most(b, SHADE_090) {
        lemma_at_most_transitive(a, b, SHADE_090);
    }
}

impl SimpleShader {
    /// Makes the threshold shader.
    pub fn new() -> (s: Self)
        ensures
            s == SimpleShader,
    {
        SimpleShader
    }

    /// The glyph for a cell whose one sample has the shade with bits
    /// `shade` (see [`scale_glyph`]).
    pub fn glyph(&self, shade: u32) -> (c: char)
        ensures
            c == scale_glyph(shade),
    {
        if bits_at_most(shade, SHADE_005) {
            ' '
        } else if bits_at_most(shade, SHADE_020) {
            '.'
        } else if bits_at_most(shade, SHADE_030) {
            ':'
        } else if bits_at_most(shade, SHADE_040) {
            '-'
        } else if bits_at_most(shade, SHADE_050) {
            '='
        } else if bits_at_most(shade, SHADE_060) {
            '+'
        } else if bits_at_most(shade, SHADE_070) {
            '*'
        } else if bits_at_most(shade, SHADE_080) {
            '#'
        } else if bits_at_most(shade, SHADE_090) {
            '%'
        } else if bits_at_most(shade, SHADE_100) {
            '@'
        } else {
            ' '
        }
    }
}

} // verus!
