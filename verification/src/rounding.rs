//! Rounding of exact values to double precision.
//!
//! The exact result of an arithmetic operation on two finite binary64 values
//! is a ratio of two integers, counted in units of 2^-1074. This module says
//! which bit pattern is nearest to such a ratio, and computes it.
use vstd::prelude::*;
use vstd::arithmetic::div_mod::{
    lemma_div_multiples_vanish_quotient, lemma_fundamental_div_mod_converse, lemma_truncate_middle,
};
use vstd::arithmetic::mul::{lemma_mul_is_associative, lemma_mul_is_commutative};
use vstd::arithmetic::power2::{
    lemma2_to64, lemma2_to64_rest, lemma_pow2_adds, lemma_pow2_pos, lemma_pow2_strictly_increases,
    lemma_pow2_unfold, pow2,
};
use vstd::bits::lemma_u64_shl_is_mul;

verus! {

/// The pattern of positive infinity, and the least pattern that is no finite value.
pub const INFINITY_BITS: u64 = 0x7ff0_0000_0000_0000;

/// The ratio `n / d` rounded to the nearest integer, a tie going to the even
/// one.
pub open spec fn nearest_integer(n: int, d: int) -> int {
    let quotient = n / d;
    let rest = n % d;
    if 2 * rest > d || (2 * rest == d && quotient % 2 == 1) {
        quotient + 1
    } else {
        quotient
    }
}

/// By how much `n / d` is past the binade 0, a measure that halving the
/// ratio makes smaller.
pub open spec fn excess(n: int, d: int) -> nat {
    if n >= 0x20_0000_0000_0000 * d {
        (n - 0x20_0000_0000_0000 * d + 1) as nat
    } else {
        0
    }
}

/// The binade of the ratio `n / d`: 0 where it is below 2^53, and otherwise
/// the `k` with `2^(52+k) <= n / d < 2^(53+k)`. Values of binade `k` are
/// represented in steps of `2^k`.
pub open spec fn binade(n: int, d: int) -> nat
    decreases excess(n, d),
{
    if d <= 0 || n < 0x20_0000_0000_0000 * d {
        0
    } else {
        1 + binade(n, 2 * d)
    }
}

/// The pattern, without sign, of the double precision value nearest to
/// `n / d` units of 2^-1074: the ratio is rounded to a whole number of steps
/// of its binade, a tie going to the even one, and what lies beyond the
/// largest finite value becomes infinity.
pub open spec fn nearest_pattern(n: int, d: int) -> int {
    let k = binade(n, d);
    let pattern = k * 0x10_0000_0000_0000 + nearest_integer(n, d * pow2(k));
    if pattern >= INFINITY_BITS {
        INFINITY_BITS as int
    } else {
        pattern
    }
}

/// Nothing rounds to nothing.
pub proof fn nearest_pattern_of_zero(d: int)
    requires
        d > 0,
    ensures
        nearest_pattern(0, d) == 0,
{
    lemma2_to64();
    assert(d * pow2(0) == d) by (nonlinear_arith)
        requires
            pow2(0) == 1,
    ;
    lemma_fundamental_div_mod_converse(0, d, 0, 0);
}

/// The nearest integer to a ratio does not change when numerator and
/// denominator are multiplied by the same positive number.
pub proof fn nearest_integer_of_scaled_ratio(n: int, d: int, factor: int)
    requires
        n >= 0,
        d > 0,
        factor > 0,
    ensures
        nearest_integer(factor * n, factor * d) == nearest_integer(n, d),
{
    lemma_div_multiples_vanish_quotient(factor, n, d);
    lemma_truncate_middle(n, factor, d);
    let rest = n % d;
    assert(2 * (factor * rest) > factor * d <==> 2 * rest > d) by (nonlinear_arith)
        requires
            factor > 0,
    ;
    assert(2 * (factor * rest) == factor * d <==> 2 * rest == d) by (nonlinear_arith)
        requires
            factor > 0,
    ;
}

/// The binade of a ratio does not change when numerator and denominator are
/// multiplied by the same positive number.
pub proof fn binade_of_scaled_ratio(n: int, d: int, factor: int)
    requires
        d > 0,
        factor > 0,
    ensures
        binade(factor * n, factor * d) == binade(n, d),
    decreases excess(n, d),
{
    assert(factor * d > 0) by (nonlinear_arith)
        requires
            factor > 0,
            d > 0,
    ;
    assert(factor * n < 0x20_0000_0000_0000 * (factor * d) <==> n < 0x20_0000_0000_0000 * d)
        by (nonlinear_arith)
        requires
            factor > 0,
    ;
    if n >= 0x20_0000_0000_0000 * d {
        binade_of_scaled_ratio(n, 2 * d, factor);
        assert(factor * (2 * d) == 2 * (factor * d)) by (nonlinear_arith);
    }
}

/// The nearest pattern to a ratio does not change when numerator and
/// denominator are multiplied by the same positive number.
pub proof fn nearest_pattern_of_scaled_ratio(n: int, d: int, factor: int)
    requires
        n >= 0,
        d > 0,
        factor > 0,
    ensures
        nearest_pattern(factor * n, factor * d) == nearest_pattern(n, d),
{
    binade_of_scaled_ratio(n, d, factor);
    let k = binade(n, d);
    lemma_pow2_pos(k);
    assert(d * pow2(k) > 0) by (nonlinear_arith)
        requires
            d > 0,
            pow2(k) > 0,
    ;
    nearest_integer_of_scaled_ratio(n, d * pow2(k), factor);
    lemma_mul_is_associative(factor, d, pow2(k) as int);
}

/// What the binade of a ratio is, said without recursion.
pub proof fn binade_is(n: int, d: int, k: nat)
    requires
        d > 0,
        k == 0 ==> n < 0x20_0000_0000_0000 * d,
        k > 0 ==> pow2(52 + k) * d <= n < pow2(53 + k) * d,
    ensures
        binade(n, d) == k,
    decreases k,
{
    lemma2_to64_rest();
    if k > 0 {
        let lower = (51 + k) as nat;
        lemma_pow2_adds(1, lower);
        lemma_pow2_adds(1, (52 + k) as nat);
        lemma2_to64();
        lemma_pow2_pos(lower);
        assert(pow2(52 + k) * d >= 0x20_0000_0000_0000 * d) by {
            if k > 1 {
                vstd::arithmetic::power2::lemma_pow2_strictly_increases(53, 52 + k);
            }
            assert(pow2(52 + k) * d >= pow2(53) * d) by (nonlinear_arith)
                requires
                    pow2(52 + k) >= pow2(53),
                    d > 0,
            ;
        }
        // the condition for k - 1 over the doubled denominator
        assert(pow2(52 + k) * d == pow2(lower) * (2 * d)) by (nonlinear_arith)
            requires
                pow2(52 + k) == 2 * pow2(lower),
        ;
        assert(pow2(53 + k) * d == pow2(52 + k) * (2 * d)) by (nonlinear_arith)
            requires
                pow2(53 + k) == 2 * pow2(52 + k),
        ;
        if k == 1 {
            assert(pow2(53) * (2 * d) == 0x20_0000_0000_0000 * (2 * d));
        }
        binade_is(n, 2 * d, (k - 1) as nat);
    }
}

/// What the nearest integer to a ratio is, given the two multiples of the
/// denominator around the numerator.
pub proof fn nearest_integer_is(n: int, d: int, quotient: int)
    requires
        d > 0,
        quotient * d <= n < (quotient + 1) * d,
    ensures
        n / d == quotient,
        n % d == n - quotient * d,
        nearest_integer(n, d) == (if 2 * (n - quotient * d) > d || (2 * (n - quotient * d) == d
            && quotient % 2 == 1) {
            quotient + 1
        } else {
            quotient
        }),
{
    assert((quotient + 1) * d == quotient * d + d) by (nonlinear_arith);
    lemma_fundamental_div_mod_converse(n, d, quotient, n - quotient * d);
}

/// The largest exponent, in absolute value, that [`round_to_pattern`] takes.
pub const EXPONENT_LIMIT: i64 = 3200;

/// That the ratio `n / d` is `(m + f) * 2^t` with `0 <= f < 1`, and that
/// `sticky` tells whether `f` is more than nothing. Both sides are scaled by
/// `2^3200`, which makes every power of two in it a whole number.
pub open spec fn lies_at(n: int, d: int, m: int, t: int, sticky: bool) -> bool {
    let unit = d * pow2((t + EXPONENT_LIMIT) as nat);
    let scaled = n * pow2(EXPONENT_LIMIT as nat);
    &&& n >= 0
    &&& d > 0
    &&& m * unit <= scaled < (m + 1) * unit
    &&& sticky <==> m * unit < scaled
}

/// `2^k` for a `k` that a machine word can hold.
pub(crate) fn power_of_two(k: u64) -> (power: u64)
    requires
        k <= 63,
    ensures
        power == pow2(k as nat),
{
    proof {
        lemma2_to64_rest();
        if k < 63 {
            lemma_pow2_strictly_increases(k as nat, 63);
        }
        lemma_u64_shl_is_mul(1, k);
    }
    1u64 << k
}

/// The number of bits of `m`: the `length` with `2^(length-1) <= m < 2^length`.
pub(crate) fn bit_length(m: u64) -> (length: u64)
    requires
        m > 0,
    ensures
        1 <= length <= 64,
        pow2((length - 1) as nat) <= m < pow2(length as nat),
{
    let mut length: u64 = 64;
    let mut threshold: u64 = 0x8000_0000_0000_0000;
    proof {
        lemma2_to64();
        lemma2_to64_rest();
    }
    while m < threshold
        invariant
            1 <= length <= 64,
            threshold == pow2((length - 1) as nat),
            m < pow2(length as nat),
            m > 0,
        decreases length,
    {
        proof {
            lemma2_to64();
            if length > 1 {
                lemma_pow2_unfold((length - 1) as nat);
            }
        }
        threshold = threshold / 2;
        length = length - 1;
    }
    length
}

/// Where the numerator lies between two multiples of the rounding step,
/// told from the bits that the step drops: `m = quotient * 2^s + rest`, the
/// ratio is `m + f` in units of which `2^s` make a step, and `half` is half
/// a step.
proof fn dropped_bits_decide(
    scaled: int,
    unit: int,
    m: int,
    sticky: bool,
    s: nat,
    quotient: int,
    rest: int,
    half: int,
)
    requires
        unit > 0,
        s >= 1,
        quotient >= 0,
        m == quotient * pow2(s) + rest,
        0 <= rest < pow2(s),
        2 * half == pow2(s),
        m * unit <= scaled < (m + 1) * unit,
        sticky <==> m * unit < scaled,
    ensures
        nearest_integer(scaled, unit * pow2(s)) == (if rest > half || (rest == half && (sticky
            || quotient % 2 == 1)) {
            quotient + 1
        } else {
            quotient
        }),
{
    let step = unit * pow2(s);
    let power = pow2(s) as int;
    lemma_pow2_pos(s);
    assert(step > 0) by (nonlinear_arith)
        requires
            step == unit * power,
            unit > 0,
            power > 0,
    ;
    assert(m * unit == quotient * step + rest * unit) by (nonlinear_arith)
        requires
            m == quotient * power + rest,
            step == unit * power,
    ;
    assert((m + 1) * unit == quotient * step + (rest + 1) * unit) by (nonlinear_arith)
        requires
            m == quotient * power + rest,
            step == unit * power,
    ;
    assert((rest + 1) * unit <= step) by (nonlinear_arith)
        requires
            rest + 1 <= power,
            step == unit * power,
            unit > 0,
    ;
    assert((quotient + 1) * step == quotient * step + step) by (nonlinear_arith);
    assert(rest * unit >= 0) by (nonlinear_arith)
        requires
            rest >= 0,
            unit > 0,
    ;
    nearest_integer_is(scaled, step, quotient);
    let over = scaled - quotient * step;
    assert(step == 2 * (half * unit)) by (nonlinear_arith)
        requires
            step == unit * power,
            2 * half == power,
    ;
    if rest > half {
        assert(rest * unit >= (half + 1) * unit) by (nonlinear_arith)
            requires
                rest >= half + 1,
                unit > 0,
        ;
        assert((half + 1) * unit == half * unit + unit) by (nonlinear_arith);
    } else if rest < half {
        assert((rest + 1) * unit <= half * unit) by (nonlinear_arith)
            requires
                rest + 1 <= half,
                unit > 0,
        ;
    } else {
        assert(rest * unit == half * unit);
    }
}

/// Rounds a positive value to double precision.
///
/// The value is `(m + f) * 2^t` units of 2^-1074 with `0 <= f < 1`, and
/// `sticky` tells whether `f` is more than nothing; `n / d` is the same value
/// as a ratio. A value with `f` must have `m` of at least 54 bits, so that
/// rounding drops a bit of it.
pub(crate) fn round_to_pattern(m: u64, t: i64, sticky: bool, Ghost(n): Ghost<int>, Ghost(d): Ghost<int>) -> (pattern:
    u64)
    requires
        m > 0,
        -EXPONENT_LIMIT <= t <= EXPONENT_LIMIT,
        sticky ==> m >= 0x20_0000_0000_0000,
        lies_at(n, d, m as int, t as int, sticky),
    ensures
        pattern == nearest_pattern(n, d),
        pattern <= INFINITY_BITS,
{
    let length: i64 = bit_length(m) as i64;
    let k: i64 = if length + t > 53 {
        length + t - 53
    } else {
        0
    };
    let ghost unit = d * pow2((t + EXPONENT_LIMIT) as nat);
    let ghost factor = pow2(EXPONENT_LIMIT as nat) as int;
    let ghost scaled = n * factor;
    proof {
        lemma_pow2_pos(EXPONENT_LIMIT as nat);
        lemma_pow2_pos((t + EXPONENT_LIMIT) as nat);
        assert(unit > 0) by (nonlinear_arith)
            requires
                unit == d * pow2((t + EXPONENT_LIMIT) as nat),
                d > 0,
                pow2((t + EXPONENT_LIMIT) as nat) > 0,
        ;
        binade_from_bit_length(n, d, m as int, t as int, length as nat, k as nat);
    }
    if k >= 2047 {
        proof {
            lemma_pow2_pos(k as nat);
            assert(d * pow2(k as nat) > 0) by (nonlinear_arith)
                requires
                    d > 0,
                    pow2(k as nat) > 0,
            ;
            nearest_integer_is_not_negative(n, d * pow2(k as nat));
        }
        return INFINITY_BITS;
    }
    let s: i64 = k - t;
    let ghost step = d * pow2(k as nat);
    proof {
        // the step, scaled like the numerator
        lemma_pow2_pos(k as nat);
        assert(step > 0) by (nonlinear_arith)
            requires
                step == d * pow2(k as nat),
                d > 0,
                pow2(k as nat) > 0,
        ;
        nearest_integer_of_scaled_ratio(n, step, factor);
        lemma_pow2_adds(k as nat, EXPONENT_LIMIT as nat);
        lemma_mul_is_commutative(factor, n);
        assert(factor * step == d * pow2((k + EXPONENT_LIMIT) as nat)) by (nonlinear_arith)
            requires
                step == d * pow2(k as nat),
                pow2((k + EXPONENT_LIMIT) as nat) == pow2(k as nat) * factor,
        ;
    }
    proof {
        // a value with a fraction below its last bit is long enough to drop bits
        lemma2_to64_rest();
        if length < 53 {
            lemma_pow2_strictly_increases(length as nat, 53);
        }
    }
    let rounded: u64 = if s <= 0 {
        let up: u64 = (0 - s) as u64;
        proof {
            // no bit is dropped: the value is a whole number of steps
            assert(!sticky);
            lemma_pow2_adds((k + EXPONENT_LIMIT) as nat, up as nat);
            lemma_pow2_adds(length as nat, up as nat);
            if length + up < 53 {
                lemma_pow2_strictly_increases((length + up) as nat, 53);
            }
            let power = pow2(up as nat) as int;
            lemma_pow2_pos(up as nat);
            assert(m * power < pow2(length as nat) * power) by (nonlinear_arith)
                requires
                    m < pow2(length as nat),
                    power > 0,
            ;
            lemma_u64_shl_is_mul(m, up);
            let whole = m * power;
            let scaled_step = factor * step;
            assert(unit == scaled_step * power) by (nonlinear_arith)
                requires
                    unit == d * pow2((t + EXPONENT_LIMIT) as nat),
                    scaled_step == d * pow2((k + EXPONENT_LIMIT) as nat),
                    pow2((t + EXPONENT_LIMIT) as nat) == pow2((k + EXPONENT_LIMIT) as nat) * power,
            ;
            assert(m * unit == whole * scaled_step) by (nonlinear_arith)
                requires
                    unit == scaled_step * power,
                    whole == m * power,
            ;
            assert(scaled_step > 0) by (nonlinear_arith)
                requires
                    scaled_step == factor * step,
                    factor > 0,
                    step > 0,
            ;
            assert((whole + 1) * scaled_step == whole * scaled_step + scaled_step)
                by (nonlinear_arith);
            assert(scaled == m * unit);
            nearest_integer_is(scaled, scaled_step, whole);
        }
        m << up
    } else {
        proof {
            lemma_pow2_unfold(s as nat);
            lemma_pow2_pos(s as nat);
            lemma_pow2_adds((t + EXPONENT_LIMIT) as nat, s as nat);
            assert(unit * pow2(s as nat) == factor * step) by (nonlinear_arith)
                requires
                    unit == d * pow2((t + EXPONENT_LIMIT) as nat),
                    factor * step == d * pow2((k + EXPONENT_LIMIT) as nat),
                    pow2((k + EXPONENT_LIMIT) as nat) == pow2((t + EXPONENT_LIMIT) as nat) * pow2(
                        s as nat,
                    ),
            ;
        }
        if s >= 65 {
            proof {
                // the whole of m is less than half a step
                if s > 65 {
                    lemma_pow2_strictly_increases(64, (s - 1) as nat);
                }
                lemma_pow2_strictly_increases(64, s as nat);
                assert(m as int == 0 * pow2(s as nat) + m) by (nonlinear_arith);
                dropped_bits_decide(
                    scaled,
                    unit,
                    m as int,
                    sticky,
                    s as nat,
                    0,
                    m as int,
                    pow2((s - 1) as nat) as int,
                );
            }
            0
        } else {
            let (quotient, rest, half): (u64, u64, u64) = if s == 64 {
                proof {
                    assert(m as int == 0 * pow2(64) + m) by (nonlinear_arith);
                }
                (0, m, 0x8000_0000_0000_0000)
            } else {
                let divisor: u64 = power_of_two(s as u64);
                proof {
                    vstd::arithmetic::div_mod::lemma_fundamental_div_mod(m as int, divisor as int);
                    lemma_mul_is_commutative(divisor as int, (m / divisor) as int);
                }
                (m / divisor, m % divisor, divisor / 2)
            };
            proof {
                dropped_bits_decide(
                    scaled,
                    unit,
                    m as int,
                    sticky,
                    s as nat,
                    quotient as int,
                    rest as int,
                    half as int,
                );
                // what is kept has at most 53 bits
                if s < 64 {
                    let power = pow2(s as nat) as int;
                    if length <= s {
                        if length < s {
                            lemma_pow2_strictly_increases(length as nat, s as nat);
                        }
                        assert(quotient == 0) by (nonlinear_arith)
                            requires
                                quotient * power <= m,
                                m < power,
                                quotient >= 0,
                        ;
                    } else {
                        if length - s < 53 {
                            lemma_pow2_strictly_increases((length - s) as nat, 53);
                        }
                        lemma_pow2_adds((length - s) as nat, s as nat);
                        assert(quotient < pow2((length - s) as nat)) by (nonlinear_arith)
                            requires
                                quotient * power <= m,
                                m < pow2((length - s) as nat) * power,
                                power > 0,
                        ;
                    }
                }
            }
            if rest > half || (rest == half && (sticky || quotient % 2 == 1)) {
                quotient + 1
            } else {
                quotient
            }
        }
    };
    let pattern: u64 = (k as u64) * 0x10_0000_0000_0000 + rounded;
    if pattern >= INFINITY_BITS {
        INFINITY_BITS
    } else {
        pattern
    }
}

/// The nearest integer to a ratio that is not negative is not negative.
proof fn nearest_integer_is_not_negative(n: int, d: int)
    requires
        n >= 0,
        d > 0,
    ensures
        nearest_integer(n, d) >= 0,
{
    vstd::arithmetic::div_mod::lemma_div_pos_is_pos(n, d);
}

/// The binade of a value `(m + f) * 2^t` whose `m` has `length` bits.
proof fn binade_from_bit_length(n: int, d: int, m: int, t: int, length: nat, k: nat)
    requires
        -EXPONENT_LIMIT <= t <= EXPONENT_LIMIT,
        1 <= length <= 64,
        pow2((length - 1) as nat) <= m < pow2(length),
        exists|sticky: bool| lies_at(n, d, m, t, sticky),
        k == (if length + t > 53 {
            length + t - 53
        } else {
            0
        }),
    ensures
        binade(n, d) == k,
{
    let factor = pow2(EXPONENT_LIMIT as nat) as int;
    let shifted = pow2((t + EXPONENT_LIMIT) as nat) as int;
    let unit = d * shifted;
    let scaled = n * factor;
    lemma_pow2_pos(EXPONENT_LIMIT as nat);
    lemma_pow2_pos((t + EXPONENT_LIMIT) as nat);
    let low = pow2((length - 1) as nat) as int;
    let high = pow2(length) as int;
    // low * unit <= scaled < high * unit
    assert(low * unit <= scaled && scaled < high * unit) by (nonlinear_arith)
        requires
            low <= m,
            m + 1 <= high,
            m * unit <= scaled,
            scaled < (m + 1) * unit,
            unit == d * shifted,
            d > 0,
            shifted > 0,
    ;
    lemma2_to64_rest();
    if k > 0 {
        // 2^(52+k) * 2^3200 == 2^(length-1) * 2^(t+3200)
        lemma_pow2_adds((52 + k) as nat, EXPONENT_LIMIT as nat);
        lemma_pow2_adds((length - 1) as nat, (t + EXPONENT_LIMIT) as nat);
        lemma_pow2_adds((53 + k) as nat, EXPONENT_LIMIT as nat);
        lemma_pow2_adds(length, (t + EXPONENT_LIMIT) as nat);
        let lower = pow2(52 + k) as int;
        let upper = pow2(53 + k) as int;
        assert(lower * factor == low * shifted);
        assert(upper * factor == high * shifted);
        assert(lower * d <= n && n < upper * d) by (nonlinear_arith)
            requires
                low * unit <= scaled,
                scaled < high * unit,
                unit == d * shifted,
                scaled == n * factor,
                lower * factor == low * shifted,
                upper * factor == high * shifted,
                factor > 0,
        ;
        binade_is(n, d, k);
    } else {
        // 2^length * 2^(t+3200) <= 2^53 * 2^3200
        lemma_pow2_adds(length, (t + EXPONENT_LIMIT) as nat);
        lemma_pow2_adds(53, EXPONENT_LIMIT as nat);
        if length + t < 53 {
            lemma_pow2_strictly_increases((length + t + EXPONENT_LIMIT) as nat, (53 + EXPONENT_LIMIT) as nat);
        }
        assert(high * shifted <= 0x20_0000_0000_0000 * factor);
        assert(n < 0x20_0000_0000_0000 * d) by (nonlinear_arith)
            requires
                scaled < high * unit,
                unit == d * shifted,
                scaled == n * factor,
                high * shifted <= 0x20_0000_0000_0000 * factor,
                factor > 0,
                d > 0,
        ;
        binade_is(n, d, 0);
    }
}

/// Places a value between two multiples of a unit from the same fact about
/// numbers that are the value and the unit times a common factor.
pub proof fn lies_at_by_common_factor(
    n: int,
    d: int,
    m: int,
    t: int,
    sticky: bool,
    common: int,
    other: int,
    unit_part: int,
    value_part: int,
)
    requires
        n >= 0,
        d > 0,
        common > 0,
        other > 0,
        (d * pow2((t + EXPONENT_LIMIT) as nat)) * common == unit_part * other,
        (n * pow2(EXPONENT_LIMIT as nat)) * common == value_part * other,
        m * unit_part <= value_part < (m + 1) * unit_part,
        sticky <==> m * unit_part < value_part,
    ensures
        lies_at(n, d, m, t, sticky),
{
    let unit = d * pow2((t + EXPONENT_LIMIT) as nat);
    let scaled = n * pow2(EXPONENT_LIMIT as nat);
    assert((m * unit) * common == (m * unit_part) * other) by (nonlinear_arith)
        requires
            unit * common == unit_part * other,
    ;
    assert(((m + 1) * unit) * common == ((m + 1) * unit_part) * other) by (nonlinear_arith)
        requires
            unit * common == unit_part * other,
    ;
    let (low, high) = (m * unit_part, (m + 1) * unit_part);
    assert(low * other <= value_part * other && value_part * other < high * other && (low
        < value_part <==> low * other < value_part * other)) by (nonlinear_arith)
        requires
            low <= value_part,
            value_part < high,
            other > 0,
    ;
    let (below, above) = (m * unit, (m + 1) * unit);
    assert(below <= scaled && scaled < above && (below < scaled <==> below * common < scaled
        * common)) by (nonlinear_arith)
        requires
            below * common <= scaled * common,
            scaled * common < above * common,
            common > 0,
    ;
}

/// A whole number of powers of two lies exactly where it is.
pub proof fn exact_lies_at(m: int, t: nat)
    requires
        m >= 0,
        t <= EXPONENT_LIMIT,
    ensures
        lies_at(m * pow2(t), 1, m, t as int, false),
{
    let other = pow2((t + EXPONENT_LIMIT) as nat) as int;
    let limit = pow2(EXPONENT_LIMIT as nat) as int;
    lemma_pow2_adds(t, EXPONENT_LIMIT as nat);
    lemma_pow2_pos((t + EXPONENT_LIMIT) as nat);
    lemma_pow2_pos(t);
    let n = m * pow2(t);
    assert(n >= 0) by (nonlinear_arith)
        requires
            n == m * pow2(t),
            m >= 0,
            pow2(t) > 0,
    ;
    assert((n * limit) * 1 == m * other) by (nonlinear_arith)
        requires
            n == m * pow2(t),
            other == pow2(t) * limit,
    ;
    lies_at_by_common_factor(n, 1, m, t as int, false, 1, other, 1, m);
}

/// Rounding to the nearest integer misses the ratio by at most a half.
pub proof fn nearest_integer_is_within_half(n: int, d: int)
    requires
        d > 0,
    ensures
        -d <= 2 * (n - nearest_integer(n, d) * d) <= d,
{
    let quotient = n / d;
    vstd::arithmetic::div_mod::lemma_fundamental_div_mod(n, d);
    vstd::arithmetic::div_mod::lemma_mod_bound(n, d);
    lemma_mul_is_commutative(d, quotient);
    assert((quotient + 1) * d == quotient * d + d) by (nonlinear_arith);
}

/// A whole number of units that is not nothing does not round to nothing.
pub proof fn nearest_pattern_of_a_whole_is_positive(n: int)
    requires
        n >= 1,
    ensures
        1 <= nearest_pattern(n, 1) <= INFINITY_BITS,
{
    let k = binade(n, 1);
    lemma_pow2_pos(k);
    lemma2_to64();
    assert(1 * pow2(k) == pow2(k));
    nearest_integer_is_not_negative(n, pow2(k) as int);
    if k == 0 {
        assert(n < 0x20_0000_0000_0000);
        nearest_integer_is(n, 1, n);
    }
}

} // verus!
