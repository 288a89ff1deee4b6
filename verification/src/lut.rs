//! Colour lookup tables: from a normalised intensity to an RGBA colour.
use vstd::prelude::*;
use vstd::arithmetic::power2::{lemma2_to64_rest, lemma_pow2_adds, lemma_pow2_pos, pow2};
use crate::ieee::{Binary64, ONE_BITS};

verus! {

/// The built-in colour maps.
#[derive(Clone, Copy, Debug, PartialEq, Eq, Structural)]
pub enum LutKind {
    /// Intensity `i` is the grey `(i, i, i)`, fully opaque.
    Grayscale,
}

/// A table of 256 RGBA colours, indexed by intensity level.
#[derive(Clone, Copy, Debug, PartialEq, Eq)]
pub struct ColorLookupTable {
    entries: [[u8; 4]; 256],
}

/// The pattern of 255, the highest level.
pub const FULL_SCALE_BITS: u64 = 0x406f_e000_0000_0000;

/// A value held to the range from 0 to 1. NaN stays NaN, and `-0` stays `-0`.
pub open spec fn clamped(value: Binary64) -> Binary64 {
    if value.precedes(Binary64 { bits: 0 }) {
        Binary64 { bits: 0 }
    } else if (Binary64 { bits: ONE_BITS }).precedes(value) {
        Binary64 { bits: ONE_BITS }
    } else {
        value
    }
}

/// The intensity level of a normalised value: the value held to `[0, 1]`,
/// multiplied by 255 in double precision and rounded down. NaN is level 0.
pub open spec fn level(normalized: Binary64) -> int {
    let whole = clamped(normalized).product(Binary64 { bits: FULL_SCALE_BITS }).to_u64_spec();
    if whole > 255 {
        255
    } else {
        whole
    }
}

/// Computes the intensity level of a normalised value.
pub fn level_of(normalized: Binary64) -> (index: u8)
    ensures
        index == level(normalized),
{
    let held: Binary64 = if normalized.less_than(Binary64 { bits: 0 }) {
        Binary64 { bits: 0 }
    } else if (Binary64 { bits: ONE_BITS }).less_than(normalized) {
        Binary64 { bits: ONE_BITS }
    } else {
        normalized
    };
    let whole: u64 = held.times(Binary64 { bits: FULL_SCALE_BITS }).to_u64();
    if whole > 255 {
        255
    } else {
        whole as u8
    }
}

impl ColorLookupTable {
    /// The colour at an intensity level.
    pub closed spec fn entry(self, index: int) -> [u8; 4] {
        self.entries[index]
    }

    /// The table that a built-in colour map stands for.
    pub open spec fn is_kind(self, kind: LutKind) -> bool {
        match kind {
            LutKind::Grayscale => forall|i: int|
                0 <= i < 256 ==> (#[trigger] self.entry(i))@ == seq![i as u8, i as u8, i as u8, 255u8],
        }
    }

    /// Builds one of the built-in colour maps.
    pub fn build(kind: LutKind) -> (table: ColorLookupTable)
        ensures
            table.is_kind(kind),
    {
        match kind {
            LutKind::Grayscale => {
                let mut entries: [[u8; 4]; 256] = [[0u8, 0u8, 0u8, 255u8]; 256];
                let mut i: usize = 0;
                while i < 256
                    invariant
                        i <= 256,
                        forall|k: int|
                            0 <= k < i ==> (#[trigger] entries[k])@ == seq![
                                k as u8,
                                k as u8,
                                k as u8,
                                255u8,
                            ],
                    decreases 256 - i,
                {
                    let grey: u8 = i as u8;
                    entries[i] = [grey, grey, grey, 255u8];
                    i = i + 1;
                }
                ColorLookupTable { entries }
            },
        }
    }

    /// Makes a table of the caller's own 256 colours.
    pub fn from_entries(entries: [[u8; 4]; 256]) -> (table: ColorLookupTable)
        ensures
            forall|i: int| 0 <= i < 256 ==> #[trigger] table.entry(i) == entries[i],
    {
        ColorLookupTable { entries }
    }

    /// The colour of the given intensity level.
    pub fn color(&self, index: u8) -> (rgba: [u8; 4])
        ensures
            rgba == self.entry(index as int),
    {
        self.entries[index as usize]
    }

    /// The colour of a normalised intensity: the entry at [`level`].
    pub fn lookup(&self, normalized: Binary64) -> (rgba: [u8; 4])
        ensures
            rgba == self.entry(level(normalized)),
    {
        self.color(level_of(normalized))
    }
}

/// Every normalised value has a level in the table.
pub proof fn level_is_a_table_index(normalized: Binary64)
    ensures
        0 <= level(normalized) <= 255,
{
    let scaled = clamped(normalized).product(Binary64 { bits: FULL_SCALE_BITS });
    if scaled.is_finite() && !scaled.sign() {
        lemma_pow2_pos(1074);
        vstd::arithmetic::div_mod::lemma_div_pos_is_pos(
            scaled.magnitude() as int,
            pow2(1074) as int,
        );
    }
}

/// The ends of the scale: `+0` is level 0 and 1 is level 255.
pub proof fn level_of_the_ends()
    ensures
        level(Binary64 { bits: 0 }) == 0,
        level(Binary64 { bits: ONE_BITS }) == 255,
{
    let zero = Binary64 { bits: 0 };
    let full = Binary64 { bits: FULL_SCALE_BITS };
    assert(full.biased_exponent() == 1030 && full.fraction() == 0xf_e000_0000_0000);
    full.one_is_neutral();
    // 255 is 255 * 2^45 steps of 2^1029 units
    lemma2_to64_rest();
    lemma_pow2_adds(45, 1029);
    lemma_pow2_pos(1074);
    assert(full.magnitude() == 255 * pow2(1074)) by (nonlinear_arith)
        requires
            full.magnitude() == 0x1f_e000_0000_0000 * pow2(1029),
            pow2(1074) == 0x2000_0000_0000 * pow2(1029),
    ;
    vstd::arithmetic::div_mod::lemma_div_multiples_vanish(255, pow2(1074) as int);
    // nothing times 255 is nothing
    assert(zero.significand() == 0);
    assert(zero.magnitude() * full.magnitude() == 0) by (nonlinear_arith)
        requires
            zero.magnitude() == 0 * pow2(zero.scale()),
    ;
    crate::rounding::nearest_pattern_of_zero(pow2(1074) as int);
    assert(0int / pow2(1074) as int == 0) by {
        vstd::arithmetic::div_mod::lemma_div_basics_1(pow2(1074) as int);
    }
}

/// In the grey table the intensity 1 is white and the intensity `+0` is
/// black, both opaque.
pub proof fn grayscale_runs_from_black_to_white(table: ColorLookupTable)
    requires
        table.is_kind(LutKind::Grayscale),
    ensures
        table.entry(level(Binary64 { bits: ONE_BITS }))@ == seq![255u8, 255u8, 255u8, 255u8],
        table.entry(level(Binary64 { bits: 0 }))@ == seq![0u8, 0u8, 0u8, 255u8],
{
    level_of_the_ends();
    assert(table.entry(255)@ == seq![255u8, 255u8, 255u8, 255u8]);
    assert(table.entry(0)@ == seq![0u8, 0u8, 0u8, 255u8]);
}

} // verus!
