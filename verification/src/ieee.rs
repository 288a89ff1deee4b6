//! IEEE 754 values held as bit patterns.
//!
//! A finite binary32 value is a whole multiple of 2^-149 and a finite binary64
//! value a whole multiple of 2^-1074. The contracts below speak of values
//! through that multiple, an integer, so that every statement about a value is
//! a statement of integer arithmetic.
use vstd::prelude::*;
use vstd::arithmetic::div_mod::{lemma_div_denominator, lemma_div_multiples_vanish};
use vstd::arithmetic::mul::{lemma_mul_is_associative, lemma_mul_is_commutative};
use vstd::arithmetic::power2::{
    lemma2_to64, lemma2_to64_rest, lemma_pow2_adds, lemma_pow2_pos, lemma_pow2_strictly_increases,
    pow2,
};
use vstd::bits::{lemma_u64_shl_is_mul, lemma_u64_shr_is_div};
use crate::rounding::{
    binade_is, exact_lies_at, nearest_integer_is, nearest_pattern, nearest_pattern_of_zero,
    round_to_pattern, INFINITY_BITS,
};

verus! {

/// A binary32 (single precision) value, held as its 32-bit pattern.
///
/// Equality on this type is equality of bit patterns: it tells `-0` from `+0`
/// and one NaN from another.
#[derive(Clone, Copy, Debug, PartialEq, Eq, Structural)]
pub struct Binary32 {
    pub bits: u32,
}

/// A binary64 (double precision) value, held as its 64-bit pattern.
///
/// Equality on this type is equality of bit patterns: it tells `-0` from `+0`
/// and one NaN from another.
#[derive(Clone, Copy, Debug, PartialEq, Eq, Structural)]
pub struct Binary64 {
    pub bits: u64,
}

/// The sign bit of a binary64 pattern.
pub const SIGN_BIT: u64 = 0x8000_0000_0000_0000;

/// The pattern of the quiet NaN that arithmetic gives.
pub const NAN_BITS: u64 = 0x7ff8_0000_0000_0000;

/// The pattern of 1.
pub const ONE_BITS: u64 = 0x3ff0_0000_0000_0000;

impl Binary32 {
    /// The sign bit.
    pub open spec fn sign(self) -> bool {
        self.bits >= 0x8000_0000
    }

    /// The 8-bit exponent field.
    pub open spec fn biased_exponent(self) -> int {
        (self.bits as int / 0x80_0000) % 0x100
    }

    /// The 23-bit fraction field.
    pub open spec fn fraction(self) -> int {
        self.bits as int % 0x80_0000
    }

    /// No number: the exponent field is all ones and the fraction is not 0.
    pub open spec fn is_nan(self) -> bool {
        self.biased_exponent() == 0xff && self.fraction() != 0
    }

    /// An infinity: the exponent field is all ones and the fraction is 0.
    pub open spec fn is_infinite(self) -> bool {
        self.biased_exponent() == 0xff && self.fraction() == 0
    }

    /// Zero, subnormal or normal.
    pub open spec fn is_finite(self) -> bool {
        self.biased_exponent() < 0xff
    }

    /// The fraction with the implicit leading bit of a normal number.
    pub open spec fn significand(self) -> int {
        if self.biased_exponent() == 0 {
            self.fraction()
        } else {
            0x80_0000 + self.fraction()
        }
    }

    /// The power of two by which the significand counts units of 2^-149.
    pub open spec fn scale(self) -> nat {
        if self.biased_exponent() == 0 {
            0
        } else {
            (self.biased_exponent() - 1) as nat
        }
    }

    /// The absolute value of a finite pattern, in units of 2^-149.
    pub open spec fn magnitude(self) -> nat {
        (self.significand() * pow2(self.scale())) as nat
    }

    /// Whether the value is zero of either sign.
    pub open spec fn is_zero(self) -> bool {
        self.bits == 0 || self.bits == 0x8000_0000
    }

    /// What a conversion to an unsigned machine integer gives: the value with
    /// its fractional part dropped, held to the range of `usize`. NaN and
    /// everything negative give 0, and so does `-0`.
    pub open spec fn to_usize_spec(self) -> int {
        if self.is_nan() || self.sign() {
            0
        } else if self.is_infinite() {
            usize::MAX as int
        } else {
            let whole = self.magnitude() as int / pow2(149) as int;
            if whole > usize::MAX {
                usize::MAX as int
            } else {
                whole
            }
        }
    }

    /// Tells whether the value is `+0` or `-0`.
    pub fn equals_zero(self) -> (zero: bool)
        ensures
            zero == self.is_zero(),
            zero ==> self.is_finite() && self.magnitude() == 0,
    {
        let zero = self.bits == 0 || self.bits == 0x8000_0000;
        proof {
            if zero {
                assert(self.significand() == 0);
                assert(0 * pow2(self.scale()) == 0);
            }
        }
        zero
    }

    /// Converts to `usize`, dropping the fractional part and saturating.
    pub fn to_usize(self) -> (whole: usize)
        ensures
            whole == self.to_usize_spec(),
    {
        if self.bits >= 0x8000_0000 {
            return 0;
        }
        let exponent: u32 = self.bits / 0x80_0000;
        let fraction: u32 = self.bits % 0x80_0000;
        if exponent == 0xff {
            return if fraction != 0 {
                0
            } else {
                usize::MAX
            };
        }
        if exponent < 127 {
            proof {
                self.magnitude_below_one();
            }
            return 0;
        }
        let significand: u64 = 0x80_0000 + fraction as u64;
        if exponent >= 191 {
            proof {
                self.magnitude_above_u64();
            }
            usize::MAX
        } else if exponent >= 150 {
            let shift: u64 = (exponent - 150) as u64;
            proof {
                self.magnitude_shifted_left();
            }
            let whole: u64 = significand << shift;
            if whole > usize::MAX as u64 {
                usize::MAX
            } else {
                whole as usize
            }
        } else {
            let shift: u64 = (150 - exponent) as u64;
            proof {
                self.magnitude_shifted_right();
            }
            let whole: u64 = significand >> shift;
            whole as usize
        }
    }

    proof fn magnitude_below_one(self)
        requires
            self.biased_exponent() < 127,
        ensures
            self.magnitude() as int / pow2(149) as int == 0,
    {
        let s = self.significand();
        let k = self.scale();
        // s < 2^24 and k <= 125, so the magnitude is below 2^149
        lemma_pow2_adds(24, 125);
        lemma2_to64();
        if k < 125 {
            lemma_pow2_strictly_increases(k, 125);
        }
        lemma_pow2_pos(k);
        assert(s * pow2(k) < pow2(24) * pow2(125)) by (nonlinear_arith)
            requires
                0 <= s < pow2(24),
                0 < pow2(k) <= pow2(125),
        ;
        lemma_pow2_pos(149);
        assert(pow2(24 + 125) == pow2(149));
        vstd::arithmetic::div_mod::lemma_basic_div(self.magnitude() as int, pow2(149) as int);
    }

    proof fn magnitude_above_u64(self)
        requires
            191 <= self.biased_exponent() < 0xff,
        ensures
            self.magnitude() as int / pow2(149) as int >= 0x1_0000_0000_0000_0000,
    {
        let s = self.significand();
        let k = self.scale();
        let extra = (k - 149) as nat;
        lemma_pow2_adds(extra, 149);
        assert(pow2(k) == pow2(extra) * pow2(149));
        lemma_pow2_pos(149);
        lemma_pow2_pos(extra);
        lemma_mul_is_associative(s, pow2(extra) as int, pow2(149) as int);
        lemma_div_multiples_vanish(s * pow2(extra), pow2(149) as int);
        assert(self.magnitude() as int / pow2(149) as int == s * pow2(extra));
        lemma2_to64();
        lemma2_to64_rest();
        if extra > 41 {
            lemma_pow2_strictly_increases(41, extra);
        }
        assert(s * pow2(extra) >= 0x80_0000 * pow2(41)) by (nonlinear_arith)
            requires
                s >= 0x80_0000,
                pow2(extra) >= pow2(41),
        ;
    }

    proof fn magnitude_shifted_left(self)
        requires
            150 <= self.biased_exponent() < 191,
        ensures
            self.significand() * pow2((self.biased_exponent() - 150) as nat) <= u64::MAX,
            self.magnitude() as int / pow2(149) as int == (self.significand() as u64) << ((
            self.biased_exponent() - 150) as u64),
    {
        let s = self.significand();
        let k = self.scale();
        let extra = (k - 149) as nat;
        lemma_pow2_adds(extra, 149);
        lemma_pow2_pos(149);
        lemma_pow2_pos(extra);
        lemma_mul_is_associative(s, pow2(extra) as int, pow2(149) as int);
        lemma_div_multiples_vanish(s * pow2(extra), pow2(149) as int);
        lemma2_to64();
        lemma2_to64_rest();
        if extra < 40 {
            lemma_pow2_strictly_increases(extra, 40);
        }
        assert(s * pow2(extra) < 0x100_0000 * pow2(40)) by (nonlinear_arith)
            requires
                0 <= s < 0x100_0000,
                0 < pow2(extra) <= pow2(40),
        ;
        lemma_u64_shl_is_mul(s as u64, extra as u64);
    }

    proof fn magnitude_shifted_right(self)
        requires
            127 <= self.biased_exponent() < 150,
        ensures
            self.magnitude() as int / pow2(149) as int == (self.significand() as u64) >> ((150
                - self.biased_exponent()) as u64),
            (self.significand() as u64) >> ((150 - self.biased_exponent()) as u64) < 0x100_0000,
    {
        let s = self.significand();
        let k = self.scale();
        let down = (149 - k) as nat;
        lemma_pow2_adds(k, down);
        lemma_pow2_pos(k);
        lemma_pow2_pos(down);
        // (s * 2^k) / (2^k * 2^down) == s / 2^down
        lemma_mul_is_commutative(s, pow2(k) as int);
        lemma_div_denominator(s * pow2(k), pow2(k) as int, pow2(down) as int);
        lemma_div_multiples_vanish(s, pow2(k) as int);
        lemma_u64_shr_is_div(s as u64, down as u64);
        vstd::arithmetic::div_mod::lemma_div_nonincreasing(s, pow2(down) as int);
    }

    /// The fraction that widening gives a NaN: the payload, with the quiet bit set.
    pub open spec fn quiet_fraction(self) -> int {
        if self.fraction() < 0x40_0000 {
            self.fraction() + 0x40_0000
        } else {
            self.fraction()
        }
    }

    /// This value in double precision. A finite value and an infinity are
    /// kept exactly, with the sign (see [`Binary32::widening_is_exact`]); a
    /// NaN becomes the quiet NaN of the same sign and payload.
    pub open spec fn widened(self) -> Binary64 {
        if self.is_nan() {
            Binary64::signed(self.sign(), INFINITY_BITS + self.quiet_fraction() * 0x2000_0000)
        } else if self.is_infinite() {
            Binary64::signed(self.sign(), INFINITY_BITS as int)
        } else {
            Binary64::signed(
                self.sign(),
                nearest_pattern((self.magnitude() * pow2(925)) as int, 1),
            )
        }
    }

    /// Converts to double precision.
    pub fn widen(self) -> (wide: Binary64)
        ensures
            wide == self.widened(),
    {
        let negative: bool = self.bits >= 0x8000_0000;
        let exponent: u64 = ((self.bits / 0x80_0000) % 0x100) as u64;
        let fraction: u64 = (self.bits % 0x80_0000) as u64;
        if exponent == 0xff {
            let wide_fraction: u64 = if fraction == 0 {
                0
            } else if fraction < 0x40_0000 {
                (fraction + 0x40_0000) * 0x2000_0000
            } else {
                fraction * 0x2000_0000
            };
            return Binary64::with_sign(negative, INFINITY_BITS + wide_fraction);
        }
        let (significand, power): (u64, i64) = if exponent == 0 {
            (fraction, 0)
        } else {
            (0x80_0000 + fraction, exponent as i64 - 1)
        };
        if significand == 0 {
            proof {
                assert(0 * pow2(self.scale()) == 0);
                assert(0 * pow2(925) == 0);
                nearest_pattern_of_zero(1);
            }
            return Binary64::with_sign(negative, 0);
        }
        let ghost exact: int = (self.magnitude() * pow2(925)) as int;
        proof {
            lemma_pow2_adds(power as nat, 925);
            lemma_mul_is_associative(
                significand as int,
                pow2(power as nat) as int,
                pow2(925) as int,
            );
            exact_lies_at(significand as int, (power + 925) as nat);
        }
        let pattern = round_to_pattern(significand, power + 925, false, Ghost(exact), Ghost(1));
        Binary64::with_sign(negative, pattern)
    }

    /// Widening keeps finite values and infinities as they are.
    pub proof fn widening_is_exact(self)
        requires
            !self.is_nan(),
        ensures
            self.widened().sign() == self.sign(),
            self.is_infinite() ==> self.widened().is_infinite(),
            self.is_finite() ==> self.widened().is_finite() && self.widened().magnitude()
                == self.magnitude() * pow2(925),
    {
        let wide = self.widened();
        if self.is_finite() {
            if self.significand() == 0 {
                assert(0 * pow2(self.scale()) == 0);
                assert(0 * pow2(925) == 0);
                nearest_pattern_of_zero(1);
                let zero = Binary64 { bits: wide.abs_bits() as u64 };
                assert(zero.significand() == 0);
                assert(0 * pow2(zero.scale()) == 0);
                wide.magnitude_ignores_sign();
            } else {
                let power = self.scale() + 925;
                let pattern = Binary64::pattern_of(self.significand(), power);
                lemma_pow2_adds(self.scale(), 925);
                lemma_mul_is_associative(
                    self.significand(),
                    pow2(self.scale()) as int,
                    pow2(925) as int,
                );
                pattern.representable_rounds_to_itself();
                assert(wide.abs_bits() == pattern.abs_bits());
                wide.magnitude_ignores_sign();
                pattern.magnitude_ignores_sign();
            }
        } else {
            let infinity = Binary64 { bits: INFINITY_BITS };
            assert(infinity.biased_exponent() == 0x7ff && infinity.fraction() == 0);
        }
    }
}

impl Binary64 {
    /// The sign bit.
    pub open spec fn sign(self) -> bool {
        self.bits >= SIGN_BIT
    }

    /// The 11-bit exponent field.
    pub open spec fn biased_exponent(self) -> int {
        (self.bits as int / 0x10_0000_0000_0000) % 0x800
    }

    /// The 52-bit fraction field.
    pub open spec fn fraction(self) -> int {
        self.bits as int % 0x10_0000_0000_0000
    }

    /// No number: the exponent field is all ones and the fraction is not 0.
    pub open spec fn is_nan(self) -> bool {
        self.biased_exponent() == 0x7ff && self.fraction() != 0
    }

    /// An infinity: the exponent field is all ones and the fraction is 0.
    pub open spec fn is_infinite(self) -> bool {
        self.biased_exponent() == 0x7ff && self.fraction() == 0
    }

    /// Zero, subnormal or normal.
    pub open spec fn is_finite(self) -> bool {
        self.biased_exponent() < 0x7ff
    }

    /// The fraction with the implicit leading bit of a normal number.
    pub open spec fn significand(self) -> int {
        if self.biased_exponent() == 0 {
            self.fraction()
        } else {
            0x10_0000_0000_0000 + self.fraction()
        }
    }

    /// The power of two by which the significand counts units of 2^-1074.
    pub open spec fn scale(self) -> nat {
        if self.biased_exponent() == 0 {
            0
        } else {
            (self.biased_exponent() - 1) as nat
        }
    }

    /// The absolute value of a finite pattern, in units of 2^-1074.
    pub open spec fn magnitude(self) -> nat {
        (self.significand() * pow2(self.scale())) as nat
    }

    /// The value of a finite pattern, in units of 2^-1074.
    pub open spec fn scaled(self) -> int {
        if self.sign() {
            -(self.magnitude() as int)
        } else {
            self.magnitude() as int
        }
    }

    /// The pattern without its sign bit.
    pub open spec fn abs_bits(self) -> int {
        if self.sign() {
            self.bits - SIGN_BIT
        } else {
            self.bits as int
        }
    }

    /// Whether the value is zero of either sign.
    pub open spec fn is_zero(self) -> bool {
        self.abs_bits() == 0
    }

    /// The value of the given sign and pattern without sign.
    pub open spec fn signed(negative: bool, pattern: int) -> Binary64 {
        Binary64 {
            bits: (if negative {
                pattern + SIGN_BIT
            } else {
                pattern
            }) as u64,
        }
    }

    /// That the value is exactly the integer `value`, and `+0` where that is 0.
    pub open spec fn is_integer(self, value: int) -> bool {
        &&& self.is_finite()
        &&& self.sign() == (value < 0)
        &&& self.magnitude() == (if value < 0 {
            -value
        } else {
            value
        }) * pow2(1074)
    }

    /// The double precision value nearest to an integer, a tie going to the
    /// even significand. Up to 2^53 it is the integer itself (see
    /// [`Binary64::of_integer_is_exact`]).
    pub open spec fn of_integer(value: int) -> Binary64 {
        if value < 0 {
            Self::signed(true, nearest_pattern(-value * pow2(1074), 1))
        } else {
            Self::signed(false, nearest_pattern(value * pow2(1074), 1))
        }
    }

    /// The place of a value that is no NaN in numeric order: patterns of
    /// larger values have larger keys, and the two zeros share the key 0.
    pub open spec fn order_key(self) -> int {
        if self.sign() {
            -self.abs_bits()
        } else {
            self.abs_bits()
        }
    }

    /// IEEE 754 `<`: neither side is NaN and `self` is the smaller value.
    pub open spec fn precedes(self, other: Binary64) -> bool {
        !self.is_nan() && !other.is_nan() && self.order_key() < other.order_key()
    }

    /// IEEE 754 `==`: neither side is NaN and the values are equal.
    pub open spec fn same_value(self, other: Binary64) -> bool {
        !self.is_nan() && !other.is_nan() && self.order_key() == other.order_key()
    }

    /// `+0`.
    pub fn zero() -> (value: Binary64)
        ensures
            value.bits == 0,
            value == Self::of_integer(0),
    {
        proof {
            assert(0 * pow2(1074) == 0);
            nearest_pattern_of_zero(1);
        }
        Binary64 { bits: 0 }
    }

    /// The pattern without its sign bit.
    pub fn abs(self) -> (abs: u64)
        ensures
            abs == self.abs_bits(),
            abs < SIGN_BIT,
            abs > INFINITY_BITS <==> self.is_nan(),
            abs == INFINITY_BITS <==> self.is_infinite(),
            abs < INFINITY_BITS <==> self.is_finite(),
            abs == 0 <==> self.is_zero(),
    {
        if self.bits >= SIGN_BIT {
            self.bits - SIGN_BIT
        } else {
            self.bits
        }
    }

    /// The value of the given sign and pattern without sign.
    pub(crate) fn with_sign(negative: bool, pattern: u64) -> (value: Binary64)
        requires
            pattern < SIGN_BIT,
        ensures
            value == Self::signed(negative, pattern as int),
            value.sign() == negative,
            value.abs_bits() == pattern,
    {
        if negative {
            Binary64 { bits: pattern + SIGN_BIT }
        } else {
            Binary64 { bits: pattern }
        }
    }

    /// Tells whether the value is a NaN.
    pub fn check_nan(self) -> (nan: bool)
        ensures
            nan == self.is_nan(),
    {
        self.abs() > INFINITY_BITS
    }

    /// The place of the value in numeric order.
    fn key(self) -> (key: i64)
        ensures
            key == self.order_key(),
    {
        if self.bits >= SIGN_BIT {
            0 - (self.abs() as i64)
        } else {
            self.bits as i64
        }
    }

    /// IEEE 754 `<` on the two values.
    pub fn less_than(self, other: Binary64) -> (less: bool)
        ensures
            less == self.precedes(other),
    {
        !self.check_nan() && !other.check_nan() && self.key() < other.key()
    }

    /// IEEE 754 `==` on the two values: `-0` equals `+0`, NaN equals nothing.
    pub fn equal_to(self, other: Binary64) -> (equal: bool)
        ensures
            equal == self.same_value(other),
    {
        !self.check_nan() && !other.check_nan() && self.key() == other.key()
    }

    /// The value nearest to an unsigned 64-bit integer.
    pub fn from_u64(value: u64) -> (out: Binary64)
        ensures
            out == Self::of_integer(value as int),
    {
        if value == 0 {
            return Self::zero();
        }
        proof {
            exact_lies_at(value as int, 1074);
        }
        let pattern = round_to_pattern(
            value,
            1074,
            false,
            Ghost(value * pow2(1074)),
            Ghost(1),
        );
        Self::with_sign(false, pattern)
    }

    /// The value nearest to a signed 64-bit integer.
    pub fn from_i64(value: i64) -> (out: Binary64)
        ensures
            out == Self::of_integer(value as int),
    {
        if value >= 0 {
            return Self::from_u64(value as u64);
        }
        let magnitude: u64 = (0 - (value + 1)) as u64 + 1;
        proof {
            exact_lies_at(magnitude as int, 1074);
        }
        let pattern = round_to_pattern(
            magnitude,
            1074,
            false,
            Ghost(magnitude * pow2(1074)),
            Ghost(1),
        );
        Self::with_sign(true, pattern)
    }

    /// The value of a signed 32-bit integer, exactly.
    pub fn from_i32(value: i32) -> (out: Binary64)
        ensures
            out == Self::of_integer(value as int),
            out.is_integer(value as int),
    {
        proof {
            Self::of_integer_is_exact(value as int);
        }
        Self::from_i64(value as i64)
    }

    /// The value of an unsigned 32-bit integer, exactly.
    pub fn from_u32(value: u32) -> (out: Binary64)
        ensures
            out == Self::of_integer(value as int),
            out.is_integer(value as int),
    {
        proof {
            Self::of_integer_is_exact(value as int);
        }
        Self::from_u64(value as u64)
    }

    /// What a conversion to an unsigned 64-bit integer gives: the value with
    /// its fractional part dropped, held to the range of `u64`. NaN and
    /// everything negative give 0, and so does `-0`.
    pub open spec fn to_u64_spec(self) -> int {
        if self.is_nan() || self.sign() {
            0
        } else if self.is_infinite() {
            u64::MAX as int
        } else {
            let whole = self.magnitude() as int / pow2(1074) as int;
            if whole > u64::MAX {
                u64::MAX as int
            } else {
                whole
            }
        }
    }

    /// Converts to `u64`, dropping the fractional part and saturating.
    pub fn to_u64(self) -> (whole: u64)
        ensures
            whole == self.to_u64_spec(),
    {
        if self.bits >= SIGN_BIT {
            return 0;
        }
        let exponent: u64 = self.bits / 0x10_0000_0000_0000;
        let fraction: u64 = self.bits % 0x10_0000_0000_0000;
        if exponent == 0x7ff {
            return if fraction != 0 {
                0
            } else {
                u64::MAX
            };
        }
        if exponent < 1023 {
            proof {
                self.whole_part_below_one();
            }
            return 0;
        }
        let significand: u64 = 0x10_0000_0000_0000 + fraction;
        if exponent >= 1087 {
            proof {
                self.whole_part_above_u64();
            }
            u64::MAX
        } else if exponent >= 1075 {
            proof {
                self.whole_part_shifted_left();
            }
            significand << (exponent - 1075)
        } else {
            proof {
                self.whole_part_shifted_right();
            }
            significand >> (1075 - exponent)
        }
    }

    proof fn whole_part_below_one(self)
        requires
            self.biased_exponent() < 1023,
        ensures
            self.magnitude() as int / pow2(1074) as int == 0,
    {
        let s = self.significand();
        let k = self.scale();
        // s < 2^53 and k <= 1021, so the magnitude is below 2^1074
        lemma_pow2_adds(53, 1021);
        lemma2_to64_rest();
        if k < 1021 {
            lemma_pow2_strictly_increases(k, 1021);
        }
        lemma_pow2_pos(k);
        assert(s * pow2(k) < pow2(53) * pow2(1021)) by (nonlinear_arith)
            requires
                0 <= s < pow2(53),
                0 < pow2(k) <= pow2(1021),
        ;
        lemma_pow2_pos(1074);
        vstd::arithmetic::div_mod::lemma_basic_div(self.magnitude() as int, pow2(1074) as int);
    }

    proof fn whole_part_above_u64(self)
        requires
            1087 <= self.biased_exponent() < 0x7ff,
        ensures
            self.magnitude() as int / pow2(1074) as int >= 0x1_0000_0000_0000_0000,
    {
        let s = self.significand();
        let k = self.scale();
        let extra = (k - 1074) as nat;
        lemma_pow2_adds(extra, 1074);
        lemma_pow2_pos(1074);
        lemma_pow2_pos(extra);
        lemma_mul_is_associative(s, pow2(extra) as int, pow2(1074) as int);
        lemma_div_multiples_vanish(s * pow2(extra), pow2(1074) as int);
        lemma2_to64();
        lemma2_to64_rest();
        if extra > 12 {
            lemma_pow2_strictly_increases(12, extra);
        }
        assert(s * pow2(extra) >= 0x10_0000_0000_0000 * pow2(12)) by (nonlinear_arith)
            requires
                s >= 0x10_0000_0000_0000,
                pow2(extra) >= pow2(12),
        ;
    }

    proof fn whole_part_shifted_left(self)
        requires
            1075 <= self.biased_exponent() < 1087,
        ensures
            self.significand() * pow2((self.biased_exponent() - 1075) as nat) <= u64::MAX,
            self.magnitude() as int / pow2(1074) as int == (self.significand() as u64) << ((
            self.biased_exponent() - 1075) as u64),
    {
        let s = self.significand();
        let k = self.scale();
        let extra = (k - 1074) as nat;
        lemma_pow2_adds(extra, 1074);
        lemma_pow2_pos(1074);
        lemma_pow2_pos(extra);
        lemma_mul_is_associative(s, pow2(extra) as int, pow2(1074) as int);
        lemma_div_multiples_vanish(s * pow2(extra), pow2(1074) as int);
        lemma2_to64();
        lemma2_to64_rest();
        if extra < 11 {
            lemma_pow2_strictly_increases(extra, 11);
        }
        assert(s * pow2(extra) < 0x20_0000_0000_0000 * pow2(11)) by (nonlinear_arith)
            requires
                0 <= s < 0x20_0000_0000_0000,
                0 < pow2(extra) <= pow2(11),
        ;
        lemma_u64_shl_is_mul(s as u64, extra as u64);
    }

    proof fn whole_part_shifted_right(self)
        requires
            1023 <= self.biased_exponent() < 1075,
        ensures
            self.magnitude() as int / pow2(1074) as int == (self.significand() as u64) >> ((1075
                - self.biased_exponent()) as u64),
    {
        let s = self.significand();
        let k = self.scale();
        let down = (1074 - k) as nat;
        lemma_pow2_adds(k, down);
        lemma_pow2_pos(k);
        lemma_pow2_pos(down);
        // (s * 2^k) / (2^k * 2^down) == s / 2^down
        lemma_mul_is_commutative(s, pow2(k) as int);
        lemma_div_denominator(s * pow2(k), pow2(k) as int, pow2(down) as int);
        lemma_div_multiples_vanish(s, pow2(k) as int);
        lemma_u64_shr_is_div(s as u64, down as u64);
    }

    /// Among finite patterns, a larger pattern without sign is a larger
    /// absolute value.
    pub proof fn magnitude_is_monotonic(self, other: Binary64)
        requires
            self.is_finite(),
            other.is_finite(),
            self.abs_bits() < other.abs_bits(),
        ensures
            self.magnitude() < other.magnitude(),
    {
        let (low, high) = (self.scale(), other.scale());
        let (small, large) = (self.significand(), other.significand());
        lemma_pow2_pos(low);
        lemma_pow2_pos(high);
        if self.biased_exponent() == other.biased_exponent() {
            assert(small * pow2(low) < large * pow2(low)) by (nonlinear_arith)
                requires
                    0 <= small < large,
                    pow2(low) > 0,
            ;
        } else {
            assert(self.biased_exponent() < other.biased_exponent());
            assert(large >= 0x10_0000_0000_0000);
            if self.biased_exponent() == 0 {
                lemma2_to64();
                assert(small * pow2(low) < 0x10_0000_0000_0000) by (nonlinear_arith)
                    requires
                        0 <= small < 0x10_0000_0000_0000,
                        pow2(low) == 1,
                ;
                assert(large * pow2(high) >= 0x10_0000_0000_0000) by (nonlinear_arith)
                    requires
                        large >= 0x10_0000_0000_0000,
                        pow2(high) >= 1,
                ;
            } else {
                // small < 2^53, so small * 2^low < 2^52 * 2^(low + 1) <= large * 2^high
                lemma_pow2_adds(low, 1);
                lemma2_to64();
                if low + 1 < high {
                    lemma_pow2_strictly_increases(low + 1, high);
                }
                assert(small * pow2(low) < large * pow2(high)) by (nonlinear_arith)
                    requires
                        0 <= small < 0x20_0000_0000_0000,
                        large >= 0x10_0000_0000_0000,
                        pow2(low) > 0,
                        pow2(high) >= 2 * pow2(low),
                ;
            }
        }
    }

    /// A finite value has one pattern for each sign: two finite patterns of
    /// the same sign and absolute value are the same pattern.
    pub proof fn finite_pattern_is_unique(self, other: Binary64)
        requires
            self.is_finite(),
            other.is_finite(),
            self.sign() == other.sign(),
            self.magnitude() == other.magnitude(),
        ensures
            self == other,
    {
        if self.abs_bits() < other.abs_bits() {
            self.magnitude_is_monotonic(other);
        } else if other.abs_bits() < self.abs_bits() {
            other.magnitude_is_monotonic(self);
        }
    }

    /// On finite values the order of the keys is the order of the values,
    /// and equal keys are equal values.
    pub proof fn order_follows_value(self, other: Binary64)
        requires
            self.is_finite(),
            other.is_finite(),
        ensures
            self.precedes(other) <==> self.scaled() < other.scaled(),
            self.same_value(other) <==> self.scaled() == other.scaled(),
    {
        if self.abs_bits() < other.abs_bits() {
            self.magnitude_is_monotonic(other);
        } else if other.abs_bits() < self.abs_bits() {
            other.magnitude_is_monotonic(self);
        }
        self.zero_has_no_magnitude();
        other.zero_has_no_magnitude();
    }

    /// Every finite value lies strictly between the two infinities.
    pub proof fn infinities_bound_finite_values(self, infinity: Binary64)
        requires
            self.is_finite(),
            infinity.is_infinite(),
        ensures
            infinity.sign() ==> infinity.precedes(self),
            !infinity.sign() ==> self.precedes(infinity),
    {
    }

    /// The patterns without magnitude are the two zeros.
    pub proof fn zero_has_no_magnitude(self)
        requires
            self.is_finite(),
        ensures
            self.magnitude() == 0 <==> self.is_zero(),
    {
        lemma_pow2_pos(self.scale());
        let (significand, power) = (self.significand(), pow2(self.scale()));
        assert(significand * power == 0 <==> significand == 0) by (nonlinear_arith)
            requires
                significand >= 0,
                power > 0,
        ;
    }

    /// The magnitude of a pattern is that of the pattern without its sign.
    pub proof fn magnitude_ignores_sign(self)
        ensures
            (Binary64 { bits: self.abs_bits() as u64 }).magnitude() == self.magnitude(),
            (Binary64 { bits: self.abs_bits() as u64 }).abs_bits() == self.abs_bits(),
            (Binary64 { bits: self.abs_bits() as u64 }).is_finite() == self.is_finite(),
    {
        let bare = Binary64 { bits: self.abs_bits() as u64 };
        assert(bare.biased_exponent() == self.biased_exponent());
        assert(bare.fraction() == self.fraction());
    }

    /// Rounding leaves a value that has a pattern alone.
    pub proof fn representable_rounds_to_itself(self)
        requires
            self.is_finite(),
        ensures
            nearest_pattern(self.magnitude() as int, 1) == self.abs_bits(),
    {
        let k = self.scale();
        let significand = self.significand();
        let magnitude = self.magnitude() as int;
        let power = pow2(k) as int;
        lemma_pow2_pos(k);
        lemma2_to64();
        lemma2_to64_rest();
        assert(1 * power == power);
        assert((significand + 1) * power == significand * power + power) by (nonlinear_arith);
        nearest_integer_is(magnitude, power, significand);
        if k == 0 {
            assert(magnitude == significand) by (nonlinear_arith)
                requires
                    magnitude == significand * power,
                    power == 1,
            ;
            binade_is(magnitude, 1, 0);
        } else {
            lemma_pow2_adds(52, k);
            lemma_pow2_adds(53, k);
            assert(pow2(52 + k) * 1 <= magnitude && magnitude < pow2(53 + k) * 1)
                by (nonlinear_arith)
                requires
                    magnitude == significand * power,
                    0x10_0000_0000_0000 <= significand < 0x20_0000_0000_0000,
                    pow2(52 + k) == 0x10_0000_0000_0000 * power,
                    pow2(53 + k) == 0x20_0000_0000_0000 * power,
                    power > 0,
            ;
            binade_is(magnitude, 1, k);
        }
    }

    /// A positive number of less than 54 bits, times a power of two within
    /// range, has a finite pattern.
    pub proof fn pattern_of(value: int, power: nat) -> (pattern: Binary64)
        requires
            0 < value < 0x20_0000_0000_0000,
            power <= 2045,
        ensures
            pattern.is_finite(),
            !pattern.sign(),
            pattern.magnitude() == value * pow2(power),
        decreases power,
    {
        lemma2_to64();
        if power == 0 {
            let pattern = Binary64 { bits: value as u64 };
            assert(pattern.significand() == value);
            assert(value * pow2(0) == value) by (nonlinear_arith)
                requires
                    pow2(0) == 1,
            ;
            pattern
        } else if value >= 0x10_0000_0000_0000 {
            let pattern = Binary64 { bits: (power * 0x10_0000_0000_0000 + value) as u64 };
            assert(pattern.biased_exponent() == power + 1);
            assert(pattern.fraction() == value - 0x10_0000_0000_0000);
            pattern
        } else {
            let pattern = Self::pattern_of(2 * value, (power - 1) as nat);
            lemma_pow2_adds(1, (power - 1) as nat);
            assert((2 * value) * pow2((power - 1) as nat) == value * pow2(power))
                by (nonlinear_arith)
                requires
                    pow2(power) == 2 * pow2((power - 1) as nat),
            ;
            pattern
        }
    }

    /// An integer of at most 53 bits is its own nearest value.
    pub proof fn of_integer_is_exact(value: int)
        requires
            -0x20_0000_0000_0000 < value < 0x20_0000_0000_0000,
        ensures
            Self::of_integer(value).is_integer(value),
    {
        let magnitude = if value < 0 {
            -value
        } else {
            value
        };
        if value == 0 {
            assert(0 * pow2(1074) == 0);
            nearest_pattern_of_zero(1);
            let zero = Binary64 { bits: 0 };
            assert(zero.significand() == 0);
            assert(0 * pow2(zero.scale()) == 0);
        } else {
            let pattern = Self::pattern_of(magnitude, 1074);
            pattern.representable_rounds_to_itself();
            let found = Self::of_integer(value);
            assert(found.abs_bits() == pattern.abs_bits());
            found.magnitude_ignores_sign();
            pattern.magnitude_ignores_sign();
        }
    }
}

} // verus!
