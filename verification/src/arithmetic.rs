//! Double precision arithmetic on bit patterns: IEEE 754 multiplication,
//! addition, subtraction and division, each rounded to nearest with ties to
//! even.
//!
//! Every operation is specified through the exact result on the values and
//! [`nearest_pattern`]. An operation without a number for a result gives the
//! quiet NaN of pattern `0x7ff8_0000_0000_0000`, whatever NaN went in.
use vstd::prelude::*;
use vstd::arithmetic::mul::{lemma_mul_is_associative, lemma_mul_is_commutative};
use vstd::arithmetic::power2::{
    lemma2_to64, lemma2_to64_rest, lemma_pow2_adds, lemma_pow2_pos, lemma_pow2_strictly_increases,
    pow2,
};
use vstd::bits::lemma_u64_shl_is_mul;
use crate::ieee::{Binary64, NAN_BITS, ONE_BITS, SIGN_BIT};
use crate::rounding::{
    lies_at, lies_at_by_common_factor, nearest_pattern, nearest_pattern_of_scaled_ratio,
    nearest_pattern_of_zero, power_of_two, round_to_pattern, EXPONENT_LIMIT, INFINITY_BITS,
};

verus! {

impl Binary64 {
    /// The product of the two values, rounded: NaN where one of them is NaN
    /// or they are zero and infinity; otherwise the sign is negative where
    /// the signs differ, the result is infinite where one of them is, and
    /// else it is the pattern nearest to the exact product.
    pub open spec fn product(self, other: Binary64) -> Binary64 {
        if self.is_nan() || other.is_nan() || (self.is_infinite() && other.is_zero()) || (
        self.is_zero() && other.is_infinite()) {
            Binary64 { bits: NAN_BITS }
        } else if self.is_infinite() || other.is_infinite() {
            Self::signed(self.sign() != other.sign(), INFINITY_BITS as int)
        } else {
            Self::signed(
                self.sign() != other.sign(),
                nearest_pattern((self.magnitude() * other.magnitude()) as int, pow2(1074) as int),
            )
        }
    }

    /// Splits a finite value that is not zero into a significand of 53 bits
    /// and a power of two: the magnitude is `significand * 2^exponent`.
    fn decompose(self) -> (parts: (u64, i64))
        requires
            self.is_finite(),
            !self.is_zero(),
        ensures
            0x10_0000_0000_0000 <= parts.0 < 0x20_0000_0000_0000,
            -52 <= parts.1 <= 2045,
            self.magnitude() * pow2(52) == parts.0 * pow2((parts.1 + 52) as nat),
    {
        let abs: u64 = if self.bits >= SIGN_BIT {
            self.bits - SIGN_BIT
        } else {
            self.bits
        };
        let exponent: u64 = abs / 0x10_0000_0000_0000;
        let fraction: u64 = abs % 0x10_0000_0000_0000;
        if exponent > 0 {
            proof {
                assert(self.biased_exponent() == exponent);
                assert(self.fraction() == fraction);
                lemma_pow2_adds((exponent - 1) as nat, 52);
                lemma_mul_is_associative(
                    (0x10_0000_0000_0000 + fraction) as int,
                    pow2((exponent - 1) as nat) as int,
                    pow2(52) as int,
                );
            }
            return (0x10_0000_0000_0000 + fraction, exponent as i64 - 1);
        }
        let mut significand: u64 = fraction;
        let mut power: i64 = 0;
        proof {
            assert(self.biased_exponent() == 0);
            assert(self.fraction() == fraction);
            lemma2_to64();
            assert(fraction * pow2(0) == fraction) by (nonlinear_arith)
                requires
                    pow2(0) == 1,
            ;
            assert(self.magnitude() == fraction);
        }
        while significand < 0x10_0000_0000_0000
            invariant
                0 < significand < 0x20_0000_0000_0000,
                -52 <= power <= 0,
                0 < fraction < 0x10_0000_0000_0000,
                significand * pow2((power + 52) as nat) == fraction * pow2(52),
            decreases power + 52,
        {
            proof {
                lemma2_to64();
                lemma2_to64_rest();
                if power == -52 {
                    assert(significand * pow2(0) == significand) by (nonlinear_arith)
                        requires
                            pow2(0) == 1,
                    ;
                    assert(fraction * pow2(52) >= pow2(52)) by (nonlinear_arith)
                        requires
                            fraction >= 1,
                    ;
                } else {
                    let lower = (power + 51) as nat;
                    lemma_pow2_adds(1, lower);
                    assert((significand * 2) * pow2(lower) == significand * pow2((power + 52) as nat))
                        by (nonlinear_arith)
                        requires
                            pow2((power + 52) as nat) == 2 * pow2(lower),
                    ;
                }
            }
            significand = significand * 2;
            power = power - 1;
        }
        (significand, power)
    }
}

impl Binary64 {
    /// IEEE 754 multiplication.
    pub fn times(self, other: Binary64) -> (product: Binary64)
        ensures
            product == self.product(other),
    {
        let negative: bool = (self.bits >= SIGN_BIT) != (other.bits >= SIGN_BIT);
        let (a, b): (u64, u64) = (self.abs(), other.abs());
        if a > INFINITY_BITS || b > INFINITY_BITS {
            return Binary64 { bits: NAN_BITS };
        }
        if a == INFINITY_BITS || b == INFINITY_BITS {
            return if a == 0 || b == 0 {
                Binary64 { bits: NAN_BITS }
            } else {
                Self::with_sign(negative, INFINITY_BITS)
            };
        }
        if a == 0 || b == 0 {
            proof {
                self.zero_has_no_magnitude();
                other.zero_has_no_magnitude();
                assert(self.magnitude() * other.magnitude() == 0) by (nonlinear_arith)
                    requires
                        self.magnitude() == 0 || other.magnitude() == 0,
                ;
                lemma_pow2_pos(1074);
                nearest_pattern_of_zero(pow2(1074) as int);
            }
            return Self::with_sign(negative, 0);
        }
        let (left, left_power) = self.decompose();
        let (right, right_power) = other.decompose();
        assert(left * right < 0x20_0000_0000_0000 * 0x20_0000_0000_0000 && left * right
            >= 0x10_0000_0000_0000 * 0x10_0000_0000_0000) by (nonlinear_arith)
            requires
                0x10_0000_0000_0000 <= left < 0x20_0000_0000_0000,
                0x10_0000_0000_0000 <= right < 0x20_0000_0000_0000,
        ;
        let exact: u128 = (left as u128) * (right as u128);
        let kept: u64 = (exact / 0x400_0000_0000) as u64;
        let sticky: bool = exact % 0x400_0000_0000 != 0;
        let t: i64 = left_power + right_power - 1032;
        let ghost n = (self.magnitude() * other.magnitude()) as int;
        let ghost d = pow2(1074) as int;
        proof {
            product_lies_at(
                self.magnitude() as int,
                other.magnitude() as int,
                left as int,
                left_power as int,
                right as int,
                right_power as int,
                kept as int,
                sticky,
            );
        }
        let pattern = round_to_pattern(kept, t, sticky, Ghost(n), Ghost(d));
        Self::with_sign(negative, pattern)
    }
}

/// Where the exact product of two decomposed values lies.
proof fn product_lies_at(
    left_magnitude: int,
    right_magnitude: int,
    left: int,
    left_power: int,
    right: int,
    right_power: int,
    kept: int,
    sticky: bool,
)
    requires
        left_magnitude >= 0,
        right_magnitude >= 0,
        -52 <= left_power <= 2045,
        -52 <= right_power <= 2045,
        left_magnitude * pow2(52) == left * pow2((left_power + 52) as nat),
        right_magnitude * pow2(52) == right * pow2((right_power + 52) as nat),
        kept * 0x400_0000_0000 <= left * right < (kept + 1) * 0x400_0000_0000,
        sticky <==> kept * 0x400_0000_0000 < left * right,
    ensures
        lies_at(
            left_magnitude * right_magnitude,
            pow2(1074) as int,
            kept,
            left_power + right_power - 1032,
            sticky,
        ),
{
    let t = left_power + right_power - 1032;
    let n = left_magnitude * right_magnitude;
    let d = pow2(1074) as int;
    let limit = pow2(EXPONENT_LIMIT as nat) as int;
    let shifted = pow2((t + EXPONENT_LIMIT) as nat) as int;
    let (a, b) = (pow2((left_power + 52) as nat) as int, pow2((right_power + 52) as nat) as int);
    let common = pow2(104) as int;
    let joint = (left_power + right_power + 104) as nat;
    let other = pow2(joint + 3200) as int;
    lemma2_to64_rest();
    lemma_pow2_adds(52, 52);
    lemma_pow2_adds((left_power + 52) as nat, (right_power + 52) as nat);
    lemma_pow2_adds(joint, 3200);
    lemma_pow2_adds(1074, (t + EXPONENT_LIMIT) as nat);
    lemma_pow2_adds((1074 + t + EXPONENT_LIMIT) as nat, 104);
    lemma_pow2_adds(42, joint + 3200);
    lemma_pow2_pos(104);
    lemma_pow2_pos(joint + 3200);
    lemma_pow2_pos(1074);
    assert(n >= 0) by (nonlinear_arith)
        requires
            n == left_magnitude * right_magnitude,
            left_magnitude >= 0,
            right_magnitude >= 0,
    ;
    let half = pow2(52) as int;
    assert(n * common == (left * right) * pow2(joint)) by (nonlinear_arith)
        requires
            n == left_magnitude * right_magnitude,
            common == half * half,
            left_magnitude * half == left * a,
            right_magnitude * half == right * b,
            pow2(joint) == a * b,
    ;
    assert((n * limit) * common == (left * right) * other) by (nonlinear_arith)
        requires
            n * common == (left * right) * pow2(joint),
            other == pow2(joint) * limit,
    ;
    assert((d * shifted) * common == 0x400_0000_0000 * other) by (nonlinear_arith)
        requires
            pow2((1074 + t + EXPONENT_LIMIT) as nat) == d * shifted,
            pow2((1074 + t + EXPONENT_LIMIT + 104) as nat) == pow2(
                (1074 + t + EXPONENT_LIMIT) as nat,
            ) * common,
            pow2((42 + joint + 3200) as nat) == 0x400_0000_0000 * other,
            1074 + t + EXPONENT_LIMIT + 104 == 42 + joint + 3200,
    ;
    lies_at_by_common_factor(n, d, kept, t, sticky, common, other, 0x400_0000_0000, left * right);
}

impl Binary64 {
    /// The same value with the other sign.
    pub open spec fn negated(self) -> Binary64 {
        Binary64 {
            bits: (if self.sign() {
                self.bits - SIGN_BIT
            } else {
                self.bits + SIGN_BIT
            }) as u64,
        }
    }

    /// The sum of the two values, rounded: NaN where one of them is NaN or
    /// they are the two infinities; an infinity where one of them is that
    /// infinity; otherwise the pattern nearest to the exact sum. A sum of
    /// exactly nothing is `+0`, and `-0` only where both values are `-0`.
    pub open spec fn sum(self, other: Binary64) -> Binary64 {
        if self.is_nan() || other.is_nan() || (self.is_infinite() && other.is_infinite()
            && self.sign() != other.sign()) {
            Binary64 { bits: NAN_BITS }
        } else if self.is_infinite() {
            self
        } else if other.is_infinite() {
            other
        } else {
            let exact = self.scaled() + other.scaled();
            if exact == 0 {
                Self::signed(self.sign() && other.sign(), 0)
            } else if exact < 0 {
                Self::signed(true, nearest_pattern(-exact, 1))
            } else {
                Self::signed(false, nearest_pattern(exact, 1))
            }
        }
    }

    /// The difference of the two values, rounded: the sum of the first and
    /// the second negated.
    pub open spec fn difference(self, other: Binary64) -> Binary64 {
        self.sum(other.negated())
    }

    /// The sum, or the difference, of two magnitudes.
    pub open spec fn combined(large: Binary64, small: Binary64, subtract: bool) -> int {
        if subtract {
            large.magnitude() as int - small.magnitude() as int
        } else {
            large.magnitude() as int + small.magnitude() as int
        }
    }

    /// The significand and the power of two of a finite pattern without
    /// sign, as they stand in its fields.
    fn fields(abs: u64) -> (parts: (u64, i64))
        requires
            abs < INFINITY_BITS,
        ensures
            parts.0 == (Binary64 { bits: abs }).significand(),
            parts.1 == (Binary64 { bits: abs }).scale(),
            parts.0 < 0x20_0000_0000_0000,
            0 <= parts.1 <= 2045,
            parts.1 > 0 ==> parts.0 >= 0x10_0000_0000_0000,
    {
        let exponent: u64 = abs / 0x10_0000_0000_0000;
        let fraction: u64 = abs % 0x10_0000_0000_0000;
        if exponent == 0 {
            (fraction, 0)
        } else {
            (0x10_0000_0000_0000 + fraction, exponent as i64 - 1)
        }
    }

    /// The pattern nearest to the sum, or to the difference, of the
    /// magnitudes of two finite patterns without sign, the first of which is
    /// the larger.
    fn combine(large: u64, small: u64, subtract: bool) -> (pattern: u64)
        requires
            small <= large < INFINITY_BITS,
            large > 0,
            subtract ==> small < large,
        ensures
            pattern == nearest_pattern(
                Self::combined(Binary64 { bits: large }, Binary64 { bits: small }, subtract),
                1,
            ),
            pattern <= INFINITY_BITS,
    {
        let (a, a_power) = Self::fields(large);
        let (b, b_power) = Self::fields(small);
        let apart: i64 = a_power - b_power;
        let ghost left = Binary64 { bits: large };
        let ghost right = Binary64 { bits: small };
        let ghost n: int = Self::combined(left, right, subtract);
        proof {
            lemma_pow2_pos(a_power as nat);
            lemma_pow2_pos(b_power as nat);
            lemma_pow2_adds(apart as nat, b_power as nat);
            if small < large {
                right.magnitude_is_monotonic(left);
            }
            assert(a > 0);
            assert(left.magnitude() == (a * pow2(apart as nat)) * pow2(b_power as nat))
                by (nonlinear_arith)
                requires
                    left.magnitude() == a * pow2(a_power as nat),
                    pow2(a_power as nat) == pow2(apart as nat) * pow2(b_power as nat),
            ;
        }
        if apart <= 10 {
            proof {
                lemma2_to64();
                if apart < 10 {
                    lemma_pow2_strictly_increases(apart as nat, 10);
                }
                assert(a * pow2(apart as nat) < 0x20_0000_0000_0000 * 0x400) by (nonlinear_arith)
                    requires
                        a < 0x20_0000_0000_0000,
                        0 < pow2(apart as nat) <= 0x400,
                ;
                lemma_u64_shl_is_mul(a, apart as u64);
                let shifted = a * pow2(apart as nat);
                let unit = pow2(b_power as nat) as int;
                assert(shifted > b <==> shifted * unit > b * unit) by (nonlinear_arith)
                    requires
                        unit > 0,
                ;
                assert(n == (if subtract {
                    shifted - b
                } else {
                    shifted + b
                }) * unit) by (nonlinear_arith)
                    requires
                        left.magnitude() == shifted * unit,
                        right.magnitude() == b * unit,
                        n == (if subtract {
                            left.magnitude() as int - right.magnitude() as int
                        } else {
                            left.magnitude() as int + right.magnitude() as int
                        }),
                ;
            }
            let shifted: u64 = a << (apart as u64);
            let m: u64 = if subtract {
                shifted - b
            } else {
                shifted + b
            };
            proof {
                let limit = pow2(EXPONENT_LIMIT as nat) as int;
                let other = pow2((b_power + EXPONENT_LIMIT) as nat) as int;
                lemma_pow2_adds(b_power as nat, EXPONENT_LIMIT as nat);
                lemma_pow2_pos((b_power + EXPONENT_LIMIT) as nat);
                assert(n * limit == m * other) by (nonlinear_arith)
                    requires
                        n == m * pow2(b_power as nat),
                        other == pow2(b_power as nat) * limit,
                ;
                assert(n >= 0) by (nonlinear_arith)
                    requires
                        n == m * pow2(b_power as nat),
                        m >= 0,
                        pow2(b_power as nat) > 0,
                ;
                lies_at_by_common_factor(n, 1, m as int, b_power as int, false, 1, other, 1, m as int);
            }
            return round_to_pattern(m, b_power, false, Ghost(n), Ghost(1));
        }
        let drop: i64 = apart - 10;
        let (whole, part): (u64, bool) = if drop >= 64 {
            proof {
                lemma2_to64_rest();
                lemma_pow2_strictly_increases(53, drop as nat);
                assert(b as int == 0 * pow2(drop as nat) + b) by (nonlinear_arith);
            }
            (0, b != 0)
        } else {
            let divisor: u64 = power_of_two(drop as u64);
            proof {
                lemma_pow2_pos(drop as nat);
                vstd::arithmetic::div_mod::lemma_fundamental_div_mod(b as int, divisor as int);
                lemma_mul_is_commutative(divisor as int, (b / divisor) as int);
            }
            (b / divisor, b % divisor != 0)
        };
        let ghost rest: int = b - whole * pow2(drop as nat);
        let raised: u64 = a * 0x400;
        let (m, sticky): (u64, bool) = if !subtract {
            (raised + whole, part)
        } else if part {
            (raised - whole - 1, true)
        } else {
            (raised - whole, false)
        };
        let t: i64 = a_power - 10;
        proof {
            let power = pow2(drop as nat) as int;
            let limit = pow2(EXPONENT_LIMIT as nat) as int;
            let other = pow2((b_power + EXPONENT_LIMIT) as nat) as int;
            lemma2_to64();
            lemma_pow2_pos(drop as nat);
            lemma_pow2_adds(10, drop as nat);
            lemma_pow2_adds(b_power as nat, EXPONENT_LIMIT as nat);
            lemma_pow2_adds(drop as nat, (b_power + EXPONENT_LIMIT) as nat);
            lemma_pow2_pos((b_power + EXPONENT_LIMIT) as nat);
            let exact: int = if subtract {
                raised * power - b
            } else {
                raised * power + b
            };
            assert(whole <= b) by (nonlinear_arith)
                requires
                    b == whole * power + rest,
                    rest >= 0,
                    power >= 1,
                    whole >= 0,
            ;
            assert(n == exact * pow2(b_power as nat)) by (nonlinear_arith)
                requires
                    left.magnitude() == (a * pow2(apart as nat)) * pow2(b_power as nat),
                    right.magnitude() == b * pow2(b_power as nat),
                    pow2(apart as nat) == 0x400 * power,
                    raised == a * 0x400,
                    n == (if subtract {
                        left.magnitude() as int - right.magnitude() as int
                    } else {
                        left.magnitude() as int + right.magnitude() as int
                    }),
                    exact == (if subtract {
                        raised * power - b
                    } else {
                        raised * power + b
                    }),
            ;
            assert(n * limit == exact * other) by (nonlinear_arith)
                requires
                    n == exact * pow2(b_power as nat),
                    other == pow2(b_power as nat) * limit,
            ;
            assert(m * power <= exact && exact < (m + 1) * power && (sticky <==> m * power < exact))
                by (nonlinear_arith)
                requires
                    b == whole * power + rest,
                    0 <= rest < power,
                    part <==> rest != 0,
                    exact == (if subtract {
                        raised * power - b
                    } else {
                        raised * power + b
                    }),
                    m == (if !subtract {
                        raised + whole
                    } else if part {
                        raised - whole - 1
                    } else {
                        raised - whole
                    }),
                    sticky == (if subtract {
                        part
                    } else {
                        part
                    }),
            ;
            assert(exact >= 0) by (nonlinear_arith)
                requires
                    m * power <= exact,
                    m >= 0,
                    power > 0,
            ;
            assert(n >= 0) by (nonlinear_arith)
                requires
                    n == exact * pow2(b_power as nat),
                    exact >= 0,
                    pow2(b_power as nat) > 0,
            ;
            assert(1 * pow2((t + EXPONENT_LIMIT) as nat) * 1 == power * other);
            lies_at_by_common_factor(n, 1, m as int, t as int, sticky, 1, other, power, exact);
        }
        round_to_pattern(m, t, sticky, Ghost(n), Ghost(1))
    }
}

impl Binary64 {
    /// The same value with the other sign.
    pub fn negate(self) -> (negated: Binary64)
        ensures
            negated == self.negated(),
    {
        if self.bits >= SIGN_BIT {
            Binary64 { bits: self.bits - SIGN_BIT }
        } else {
            Binary64 { bits: self.bits + SIGN_BIT }
        }
    }

    /// IEEE 754 addition.
    pub fn plus(self, other: Binary64) -> (sum: Binary64)
        ensures
            sum == self.sum(other),
    {
        let (a, b): (u64, u64) = (self.abs(), other.abs());
        let a_negative: bool = self.bits >= SIGN_BIT;
        let b_negative: bool = other.bits >= SIGN_BIT;
        if a > INFINITY_BITS || b > INFINITY_BITS {
            return Binary64 { bits: NAN_BITS };
        }
        if a == INFINITY_BITS {
            return if b == INFINITY_BITS && a_negative != b_negative {
                Binary64 { bits: NAN_BITS }
            } else {
                self
            };
        }
        if b == INFINITY_BITS {
            return other;
        }
        proof {
            self.magnitude_ignores_sign();
            other.magnitude_ignores_sign();
            self.zero_has_no_magnitude();
            other.zero_has_no_magnitude();
            let (left, right) = (Binary64 { bits: a }, Binary64 { bits: b });
            if a < b {
                left.magnitude_is_monotonic(right);
            } else if b < a {
                right.magnitude_is_monotonic(left);
            }
        }
        if a == 0 && b == 0 {
            return Self::with_sign(a_negative && b_negative, 0);
        }
        if a_negative == b_negative {
            let pattern: u64 = if a >= b {
                Self::combine(a, b, false)
            } else {
                Self::combine(b, a, false)
            };
            Self::with_sign(a_negative, pattern)
        } else if a == b {
            Self::with_sign(false, 0)
        } else if a > b {
            Self::with_sign(a_negative, Self::combine(a, b, true))
        } else {
            Self::with_sign(b_negative, Self::combine(b, a, true))
        }
    }

    /// IEEE 754 subtraction.
    pub fn minus(self, other: Binary64) -> (difference: Binary64)
        ensures
            difference == self.difference(other),
    {
        self.plus(other.negate())
    }
}

impl Binary64 {
    /// The quotient of the two values, rounded: NaN where one of them is NaN
    /// or both are zero or both infinite; otherwise the sign is negative
    /// where the signs differ, an infinity or a division by zero gives
    /// infinity, a division by infinity gives zero, and else the result is
    /// the pattern nearest to the exact quotient.
    pub open spec fn quotient(self, other: Binary64) -> Binary64 {
        if self.is_nan() || other.is_nan() || (self.is_infinite() && other.is_infinite()) || (
        self.is_zero() && other.is_zero()) {
            Binary64 { bits: NAN_BITS }
        } else if self.is_infinite() || other.is_zero() {
            Self::signed(self.sign() != other.sign(), INFINITY_BITS as int)
        } else if other.is_infinite() {
            Self::signed(self.sign() != other.sign(), 0)
        } else {
            Self::signed(
                self.sign() != other.sign(),
                nearest_pattern(
                    (self.magnitude() * pow2(1074)) as int,
                    other.magnitude() as int,
                ),
            )
        }
    }

    /// IEEE 754 division.
    pub fn over(self, other: Binary64) -> (quotient: Binary64)
        ensures
            quotient == self.quotient(other),
    {
        let negative: bool = (self.bits >= SIGN_BIT) != (other.bits >= SIGN_BIT);
        let (a, b): (u64, u64) = (self.abs(), other.abs());
        if a > INFINITY_BITS || b > INFINITY_BITS || (a == INFINITY_BITS && b == INFINITY_BITS) || (
        a == 0 && b == 0) {
            return Binary64 { bits: NAN_BITS };
        }
        if a == INFINITY_BITS || b == 0 {
            return Self::with_sign(negative, INFINITY_BITS);
        }
        if b == INFINITY_BITS {
            return Self::with_sign(negative, 0);
        }
        proof {
            self.zero_has_no_magnitude();
            other.zero_has_no_magnitude();
        }
        if a == 0 {
            proof {
                assert(self.magnitude() * pow2(1074) == 0) by (nonlinear_arith)
                    requires
                        self.magnitude() == 0,
                ;
                nearest_pattern_of_zero(other.magnitude() as int);
            }
            return Self::with_sign(negative, 0);
        }
        let (above, above_power) = self.decompose();
        let (below, below_power) = other.decompose();
        let dividend: u128 = (above as u128) * 0x40_0000_0000_0000;
        let whole: u128 = dividend / (below as u128);
        let rest: u128 = dividend % (below as u128);
        proof {
            vstd::arithmetic::div_mod::lemma_fundamental_div_mod(dividend as int, below as int);
            assert(0x20_0000_0000_0000 <= whole < 0x80_0000_0000_0000) by (nonlinear_arith)
                requires
                    dividend == below * whole + rest,
                    0 <= rest < below,
                    dividend == above * 0x40_0000_0000_0000,
                    0x10_0000_0000_0000 <= above < 0x20_0000_0000_0000,
                    0x10_0000_0000_0000 <= below < 0x20_0000_0000_0000,
            ;
        }
        let kept: u64 = whole as u64;
        let sticky: bool = rest != 0;
        let t: i64 = above_power - below_power + 1020;
        let ghost n = (self.magnitude() * pow2(1074)) as int;
        let ghost d = other.magnitude() as int;
        proof {
            assert(kept * below <= above * 0x40_0000_0000_0000 && above * 0x40_0000_0000_0000 < (
            kept + 1) * below && (sticky <==> kept * below < above * 0x40_0000_0000_0000))
                by (nonlinear_arith)
                requires
                    dividend == below * whole + rest,
                    0 <= rest < below,
                    dividend == above * 0x40_0000_0000_0000,
                    kept == whole,
                    sticky <==> rest != 0,
            ;
            quotient_lies_at(
                self.magnitude() as int,
                other.magnitude() as int,
                above as int,
                above_power as int,
                below as int,
                below_power as int,
                kept as int,
                sticky,
            );
        }
        let pattern = round_to_pattern(kept, t, sticky, Ghost(n), Ghost(d));
        Self::with_sign(negative, pattern)
    }
}

/// Where the exact quotient of two decomposed values lies.
proof fn quotient_lies_at(
    above_magnitude: int,
    below_magnitude: int,
    above: int,
    above_power: int,
    below: int,
    below_power: int,
    kept: int,
    sticky: bool,
)
    requires
        above_magnitude >= 0,
        below_magnitude > 0,
        below > 0,
        -52 <= above_power <= 2045,
        -52 <= below_power <= 2045,
        above_magnitude * pow2(52) == above * pow2((above_power + 52) as nat),
        below_magnitude * pow2(52) == below * pow2((below_power + 52) as nat),
        kept * below <= above * 0x40_0000_0000_0000 < (kept + 1) * below,
        sticky <==> kept * below < above * 0x40_0000_0000_0000,
    ensures
        lies_at(
            above_magnitude * pow2(1074),
            below_magnitude,
            kept,
            above_power - below_power + 1020,
            sticky,
        ),
{
    let t = above_power - below_power + 1020;
    let n = above_magnitude * pow2(1074);
    let limit = pow2(EXPONENT_LIMIT as nat) as int;
    let shifted = pow2((t + EXPONENT_LIMIT) as nat) as int;
    let common = pow2(52) as int;
    let other = pow2((above_power + 4272) as nat) as int;
    let (a, b) = (pow2((above_power + 52) as nat) as int, pow2((below_power + 52) as nat) as int);
    let wide = pow2(1074) as int;
    lemma2_to64_rest();
    lemma_pow2_pos(52);
    lemma_pow2_pos(1074);
    lemma_pow2_pos((above_power + 4272) as nat);
    // 2^(below_power + 52) * 2^(t + 3200) == 2^(above_power + 4272)
    lemma_pow2_adds((below_power + 52) as nat, (t + EXPONENT_LIMIT) as nat);
    // 2^(above_power + 52) * 2^1074 * 2^3200 == 2^54 * 2^(above_power + 4272)
    lemma_pow2_adds((above_power + 52) as nat, 1074);
    lemma_pow2_adds((above_power + 1126) as nat, 3200);
    lemma_pow2_adds(54, (above_power + 4272) as nat);
    assert(n >= 0) by (nonlinear_arith)
        requires
            n == above_magnitude * wide,
            above_magnitude >= 0,
            wide > 0,
    ;
    assert((below_magnitude * shifted) * common == below * other) by (nonlinear_arith)
        requires
            below_magnitude * common == below * b,
            other == b * shifted,
    ;
    assert((n * limit) * common == (above * 0x40_0000_0000_0000) * other) by (nonlinear_arith)
        requires
            n == above_magnitude * wide,
            above_magnitude * common == above * a,
            pow2((above_power + 1126) as nat) == a * wide,
            pow2((above_power + 4326) as nat) == pow2((above_power + 1126) as nat) * limit,
            pow2((above_power + 4326) as nat) == 0x40_0000_0000_0000 * other,
    ;
    lies_at_by_common_factor(
        n,
        below_magnitude,
        kept,
        t,
        sticky,
        common,
        other,
        below,
        above * 0x40_0000_0000_0000,
    );
}

impl Binary64 {
    /// Multiplying by 1 changes no finite value.
    pub proof fn one_is_neutral(self)
        requires
            self.is_finite(),
        ensures
            self.product(Binary64 { bits: ONE_BITS }) == self,
            (Binary64 { bits: ONE_BITS }).product(self) == self,
    {
        let one = Binary64 { bits: ONE_BITS };
        let unit = pow2(1074) as int;
        let magnitude = self.magnitude() as int;
        assert(one.biased_exponent() == 1023 && one.fraction() == 0);
        lemma2_to64_rest();
        lemma_pow2_adds(52, 1022);
        assert(one.magnitude() == unit);
        lemma_pow2_pos(1074);
        nearest_pattern_of_scaled_ratio(magnitude, 1, unit);
        self.representable_rounds_to_itself();
        lemma_mul_is_commutative(magnitude, unit);
        assert(unit * 1 == unit);
    }
}

} // verus!
