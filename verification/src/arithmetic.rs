//! Correctly rounded arithmetic on binary32 numbers.
use crate::binary32::{absolute, Binary32, HALF, NAN, UNIT_EXPONENT, ZERO};
use crate::rounding::{
    denominator, doubled_midpoint, half_even, law_nearest_keeps_order, law_nearest_root_is_nearest,
    law_nearest_root_keeps_order, law_rounding_error, lemma_half_even_scales, lemma_nearest_exact,
    lemma_nearest_in_binade, lemma_nearest_of_equal_quotients, lemma_nearest_of_scaled,
    lemma_nearest_of_scaled_sticky, lemma_nearest_scales, lemma_nearest_root_in_binade,
    lemma_nearest_root_is_unique, lemma_units_at_least, lemma_units_in_binade, lemma_units_increase,
    nearest, nearest_root, numerator, saturated, units_of, BINADE, INFINITE, SIGNIFICAND_LIMIT,
};
use vstd::arithmetic::div_mod::{lemma_fundamental_div_mod, lemma_fundamental_div_mod_converse};
use vstd::arithmetic::mul::lemma_mul_is_commutative;
use vstd::arithmetic::power2::{
    lemma2_to64, lemma2_to64_rest, lemma_pow2_adds, lemma_pow2_pos, lemma_pow2_strictly_increases,
    lemma_pow2_unfold, pow2,
};
use vstd::bits::{lemma_u64_shl_is_mul, lemma_u64_shr_is_div};
use vstd::prelude::*;
use vstd::std_specs::bits::axiom_u64_leading_zeros;

verus! {

/// The number of significant bits.
fn bit_length(value: u64) -> (result: u32)
    ensures
        result <= 64,
        value < pow2(result as nat),
        result > 0 ==> value >= pow2((result - 1) as nat),
        result == 0 ==> value == 0,
{
    let zeros = value.leading_zeros();
    proof {
        axiom_u64_leading_zeros(value);
        lemma2_to64();
        lemma2_to64_rest();
        lemma_pow2_unfold(64);
        if zeros < 64 {
            let top = (63 - zeros) as u64;
            lemma_u64_shr_is_div(value, top);
            let high = value >> top;
            assert(high & 1 != 0 ==> high > 0) by (bit_vector);
            lemma_fundamental_div_mod(value as int, pow2(top as nat) as int);
            lemma_pow2_pos(top as nat);
            assert(value >= pow2(top as nat)) by (nonlinear_arith)
                requires
                    value == pow2(top as nat) * (value as nat / pow2(top as nat)) + value as nat
                        % pow2(top as nat),
                    value as nat / pow2(top as nat) >= 1,
            ;
            if zeros > 0 {
                let past = (64 - zeros) as u64;
                lemma_u64_shr_is_div(value, past);
                lemma_pow2_pos(past as nat);
                lemma_fundamental_div_mod(value as int, pow2(past as nat) as int);
                assert(pow2(past as nat) * 0 == 0);
            }
        }
    }
    64 - zeros
}

/// A value times a power of two.
fn shifted_up(value: u64, by: u32) -> (result: u64)
    requires
        by < 64,
        value * pow2(by as nat) <= u64::MAX,
    ensures
        result == value * pow2(by as nat),
{
    proof {
        lemma_u64_shl_is_mul(value, by as u64);
    }
    value << by
}

/// Splits a finite magnitude into a significand and a power of two.
fn parts(magnitude: u32) -> (result: (u64, u32))
    requires
        magnitude < INFINITE,
    ensures
        units_of(magnitude as nat) == result.0 * pow2(result.1 as nat),
        result.0 < SIGNIFICAND_LIMIT,
        result.1 <= 253,
        result.1 > 0 ==> result.0 >= BINADE,
        result.0 == 0 <==> magnitude == 0,
{
    let size = magnitude as u64;
    if size < SIGNIFICAND_LIMIT {
        proof {
            lemma2_to64();
            assert(size * pow2(0) == size) by (nonlinear_arith)
                requires
                    pow2(0) == 1,
            ;
        }
        (size, 0)
    } else {
        let exponent = size / BINADE - 1;
        let significand = size - exponent * BINADE;
        proof {
            lemma_units_in_binade(significand as nat, exponent as nat);
        }
        (significand, exponent as u32)
    }
}

/// Where the binade of a number with `length` significant bits lies.
proof fn lemma_quantum(significand: nat, exponent: int, length: nat, quantum: nat)
    requires
        length > 0,
        pow2((length - 1) as nat) <= significand < pow2(length),
        quantum == if exponent + length > 24 {
            exponent + length - 24
        } else {
            0
        },
    ensures
        ({
            let n = numerator(significand, exponent);
            let d = denominator(exponent);
            &&& d > 0
            &&& d * pow2(quantum) > 0
            &&& n < SIGNIFICAND_LIMIT * (d * pow2(quantum))
            &&& quantum > 0 ==> n >= BINADE * (d * pow2(quantum))
            &&& nearest(n, d) == half_even(n, d * pow2(quantum)) + quantum * BINADE
        }),
{
    let n = numerator(significand, exponent);
    let d = denominator(exponent);
    let above: nat = if exponent > 0 {
        exponent as nat
    } else {
        0
    };
    let below: nat = if exponent < 0 {
        (-exponent) as nat
    } else {
        0
    };
    lemma2_to64();
    assert(significand * pow2(0) == significand) by (nonlinear_arith)
        requires
            pow2(0) == 1,
    ;
    lemma_pow2_pos(above);
    lemma_pow2_pos(below);
    lemma_pow2_pos(quantum);
    lemma_pow2_adds(below, quantum);
    lemma_pow2_pos(below + quantum);
    lemma_pow2_adds(24, below + quantum);
    lemma_pow2_adds(23, below + quantum);
    lemma_pow2_adds(length, above);
    lemma_pow2_adds((length - 1) as nat, above);
    assert(n == significand * pow2(above));
    assert(n < pow2(length + above)) by (nonlinear_arith)
        requires
            n == significand * pow2(above),
            significand < pow2(length),
            pow2(above) > 0,
            pow2(length + above) == pow2(length) * pow2(above),
    ;
    assert(n >= pow2((length - 1) as nat + above)) by (nonlinear_arith)
        requires
            n == significand * pow2(above),
            significand >= pow2((length - 1) as nat),
            pow2((length - 1) as nat + above) == pow2((length - 1) as nat) * pow2(above),
    ;
    if length + above < 24 + below + quantum {
        lemma_pow2_strictly_increases(length + above, 24 + (below + quantum));
    }
    lemma_nearest_in_binade(n, d, quantum);
}

/// The natural nearest to `value / divisor`, the even one of two equally near.
fn nearest_natural(value: u64, divisor: u64) -> (result: u64)
    requires
        divisor > 1,
    ensures
        result == half_even(value as nat, divisor as nat),
{
    let quotient = value / divisor;
    let rest = value % divisor;
    let gap = divisor - rest;
    proof {
        lemma_fundamental_div_mod(value as int, divisor as int);
        assert(2 * quotient <= value) by (nonlinear_arith)
            requires
                value == divisor * quotient + rest,
                divisor > 1,
                rest >= 0,
        ;
    }
    if rest < gap || (rest == gap && quotient % 2 == 0) {
        quotient
    } else {
        quotient + 1
    }
}

/// The significand that is left of `significand` once its low bits are rounded
/// away so that it counts steps of two to the `quantum`.
fn kept(significand: u64, exponent: i32, length: u32, quantum: i32) -> (result: u64)
    requires
        0 < length <= 64,
        pow2((length - 1) as nat) <= significand < pow2(length as nat),
        significand < 0x8000_0000_0000_0000 || exponent >= 0,
        -1000 <= exponent <= 1000,
        0 <= quantum <= 2000,
        quantum == if exponent + length > 24 {
            exponent + length - 24
        } else {
            0
        },
    ensures
        result == half_even(
            numerator(significand as nat, exponent as int),
            denominator(exponent as int) * pow2(quantum as nat),
        ),
        result <= SIGNIFICAND_LIMIT,
{
    let dropped = quantum - exponent;
    let ghost n = numerator(significand as nat, exponent as int);
    let ghost d = denominator(exponent as int);
    let ghost step = d * pow2(quantum as nat);
    proof {
        lemma2_to64();
        lemma_quantum(significand as nat, exponent as int, length as nat, quantum as nat);
        assert(half_even(n, step) <= SIGNIFICAND_LIMIT) by {
            lemma_fundamental_div_mod(n as int, step as int);
            let q = n / step;
            let r = n % step;
            assert(q < SIGNIFICAND_LIMIT) by (nonlinear_arith)
                requires
                    n == step * q + r,
                    r >= 0,
                    n < SIGNIFICAND_LIMIT * step,
            ;
        }
    }
    if dropped <= 0 {
        let raised = (-dropped) as u32;
        proof {
            let whole = significand * pow2(raised as nat);
            lemma_pow2_adds(raised as nat, quantum as nat);
            assert(significand * pow2(0) == significand) by (nonlinear_arith)
                requires
                    pow2(0) == 1,
            ;
            assert(n == significand * pow2(exponent as nat));
            assert(step == pow2(quantum as nat)) by (nonlinear_arith)
                requires
                    step == 1 * pow2(quantum as nat),
            ;
            assert(n == whole * step) by (nonlinear_arith)
                requires
                    n == significand * pow2(exponent as nat),
                    pow2(exponent as nat) == pow2(raised as nat) * step,
                    whole == significand * pow2(raised as nat),
            ;
            lemma_fundamental_div_mod_converse(n as int, step as int, whole, 0);
        }
        shifted_up(significand, raised)
    } else {
        proof {
            let above: nat = if exponent > 0 {
                exponent as nat
            } else {
                0
            };
            let below: nat = if exponent < 0 {
                (-exponent) as nat
            } else {
                0
            };
            assert(significand * pow2(0) == significand) by (nonlinear_arith)
                requires
                    pow2(0) == 1,
            ;
            lemma_pow2_adds(below, quantum as nat);
            lemma_pow2_adds(dropped as nat, above);
            lemma_pow2_pos(above);
            lemma_pow2_pos(dropped as nat);
            lemma_half_even_scales(significand as nat, pow2(dropped as nat), pow2(above));
        }
        if dropped >= 64 {
            proof {
                lemma2_to64_rest();
                lemma_pow2_unfold(64);
                if dropped > 64 {
                    lemma_pow2_strictly_increases(64, dropped as nat);
                }
                lemma_fundamental_div_mod_converse(
                    significand as int,
                    pow2(dropped as nat) as int,
                    0,
                    significand as int,
                );
            }
            0
        } else {
            proof {
                lemma2_to64_rest();
                if dropped < 63 {
                    lemma_pow2_strictly_increases(dropped as nat, 63);
                }
                lemma_pow2_unfold(dropped as nat);
                lemma_pow2_pos((dropped - 1) as nat);
                assert(1 * pow2(dropped as nat) == pow2(dropped as nat));
            }
            let divisor = shifted_up(1, dropped as u32);
            nearest_natural(significand, divisor)
        }
    }
}

/// Rounds `significand` times two to the `exponent`, counted in units.
fn round(significand: u64, exponent: i32) -> (result: u32)
    requires
        significand < 0x8000_0000_0000_0000 || exponent >= 0,
        -1000 <= exponent <= 1000,
    ensures
        result == saturated(
            nearest(numerator(significand as nat, exponent as int), denominator(exponent as int)),
        ),
        result <= INFINITE,
{
    let ghost n = numerator(significand as nat, exponent as int);
    let ghost d = denominator(exponent as int);
    if significand == 0 {
        proof {
            lemma_pow2_pos(absolute(exponent as int));
            lemma_nearest_exact(0, d);
            assert(0 * d == 0) by (nonlinear_arith);
            assert(n == 0) by (nonlinear_arith)
                requires
                    n == 0 * pow2(exponent as nat) || n == 0,
            ;
        }
        return 0;
    }
    let length = bit_length(significand);
    let raised = exponent + length as i32 - 24;
    let quantum: i32 = if raised > 0 {
        raised
    } else {
        0
    };
    let significand_left = kept(significand, exponent, length, quantum);
    let ghost step = d * pow2(quantum as nat);
    proof {
        lemma_quantum(significand as nat, exponent as int, length as nat, quantum as nat);
    }
    if quantum > 253 {
        proof {
            lemma_fundamental_div_mod(n as int, step as int);
            let q = n / step;
            let r = n % step;
            assert(q >= BINADE) by (nonlinear_arith)
                requires
                    n == step * q + r,
                    r < step,
                    n >= BINADE * step,
            ;
            assert(quantum * BINADE >= 254 * BINADE) by (nonlinear_arith)
                requires
                    quantum >= 254,
            ;
        }
        return INFINITE;
    }
    let magnitude = significand_left + quantum as u64 * BINADE;
    if magnitude < INFINITE as u64 {
        magnitude as u32
    } else {
        INFINITE
    }
}

/// Rounds the sum or difference of two magnitudes, `high` having the larger
/// exponent. A term too far below to be aligned decides only whether the
/// result lies just above or just below the other term.
fn combine(
    subtract: bool,
    high: u64,
    high_exponent: u32,
    low: u64,
    low_exponent: u32,
) -> (result: (bool, u32))
    requires
        0 < high < SIGNIFICAND_LIMIT,
        0 < low < SIGNIFICAND_LIMIT,
        low_exponent <= high_exponent <= 253,
        high_exponent > 0 ==> high >= BINADE,
    ensures
        ({
            let a = high * pow2(high_exponent as nat);
            let b = low * pow2(low_exponent as nat);
            let exact = if subtract {
                a - b
            } else {
                a + b
            };
            &&& result.0 == (exact < 0)
            &&& result.1 == saturated(nearest(absolute(exact), 1))
            &&& result.1 <= INFINITE
        }),
{
    let distance = high_exponent - low_exponent;
    let ghost a = high * pow2(high_exponent as nat);
    let ghost b = low * pow2(low_exponent as nat);
    proof {
        lemma2_to64();
        lemma_pow2_adds(distance as nat, low_exponent as nat);
        lemma_pow2_pos(low_exponent as nat);
        lemma_pow2_pos(distance as nat);
    }
    if distance <= 38 {
        proof {
            lemma2_to64_rest();
            if distance < 38 {
                lemma_pow2_strictly_increases(distance as nat, 38);
            }
            assert(high * pow2(distance as nat) < 0x4000_0000_0000_0000) by (nonlinear_arith)
                requires
                    0 < high < 0x100_0000,
                    0 < pow2(distance as nat) <= 0x40_0000_0000,
            ;
        }
        let aligned = shifted_up(high, distance);
        let negative = subtract && aligned < low;
        let total = if !subtract {
            aligned + low
        } else if negative {
            low - aligned
        } else {
            aligned - low
        };
        proof {
            let scale = pow2(low_exponent as nat) as int;
            assert(a == aligned * scale) by (nonlinear_arith)
                requires
                    a == high * pow2(high_exponent as nat),
                    pow2(high_exponent as nat) == pow2(distance as nat) * scale,
                    aligned == high * pow2(distance as nat),
            ;
            assert((aligned + low) * scale == a + b) by (nonlinear_arith)
                requires
                    a == aligned * scale,
                    b == low * scale,
            ;
            assert((aligned - low) * scale == a - b) by (nonlinear_arith)
                requires
                    a == aligned * scale,
                    b == low * scale,
            ;
            assert((low - aligned) * scale == b - a) by (nonlinear_arith)
                requires
                    a == aligned * scale,
                    b == low * scale,
            ;
            assert((aligned < low) == (a - b < 0)) by (nonlinear_arith)
                requires
                    a - b == (aligned - low) * scale,
                    scale > 0,
            ;
            lemma_nearest_of_scaled(total as nat, low_exponent as nat, 0);
        }
        (negative, round(total, low_exponent as i32))
    } else {
        let whole: u64 = if subtract {
            high * 0x2000 - 1
        } else {
            high * 0x2000
        };
        proof {
            let gap = (distance - 13) as nat;
            let d = pow2(gap);
            let n = if subtract {
                high * pow2(distance as nat) - low
            } else {
                high * pow2(distance as nat) + low
            };
            lemma_pow2_adds(13, gap);
            if gap > 24 {
                lemma_pow2_strictly_increases(24, gap);
            }
            assert(high * pow2(distance as nat) == (high * 0x2000) * d) by (nonlinear_arith)
                requires
                    pow2(distance as nat) == 0x2000 * d,
            ;
            assert((high * 0x2000 - 1) * d == (high * 0x2000) * d - d) by (nonlinear_arith);
            assert(whole >= SIGNIFICAND_LIMIT);
            let top = (high_exponent - 13) as nat;
            lemma_pow2_adds(gap, low_exponent as nat);
            lemma_nearest_of_scaled_sticky(n as nat, d, whole as nat, top, 0);
            let scale = pow2(low_exponent as nat) as int;
            let exact = if subtract {
                a - b
            } else {
                a + b
            };
            assert(exact * d == n * pow2(top)) by (nonlinear_arith)
                requires
                    a == high * pow2(high_exponent as nat),
                    b == low * scale,
                    pow2(high_exponent as nat) == pow2(distance as nat) * scale,
                    pow2(top) == d * scale,
                    (n == high * pow2(distance as nat) - low && exact == a - b) || (n == high
                        * pow2(distance as nat) + low && exact == a + b),
            ;
            assert(exact > 0) by (nonlinear_arith)
                requires
                    exact * d == n * pow2(top),
                    n > 0,
                    d > 0,
                    pow2(top) == d * scale,
                    scale > 0,
            ;
            assert(d * pow2(0) == d) by (nonlinear_arith)
                requires
                    pow2(0) == 1,
            ;
            assert((n as nat) * pow2(top) == n * pow2(top));
            lemma_nearest_of_equal_quotients(absolute(exact), 1, n as nat * pow2(top), d);
        }
        (false, round(2 * whole + 1, high_exponent as i32 - 14))
    }
}

impl Binary32 {
    /// The rounded sum. An exact zero is negative only where both terms are.
    #[verifier::opaque]
    pub open spec fn spec_plus(self, other: Binary32) -> Binary32 {
        if self.is_nan() || other.is_nan() {
            Binary32::of(NAN)
        } else if self.infinite() && other.infinite() && self.negative() != other.negative() {
            Binary32::of(NAN)
        } else if self.infinite() {
            self
        } else if other.infinite() {
            other
        } else {
            let exact = self.units() + other.units();
            if exact == 0 {
                Binary32::spec_signed(self.negative() && other.negative(), 0)
            } else {
                Binary32::rounded(exact < 0, absolute(exact), 1)
            }
        }
    }

    /// The rounded difference.
    #[verifier::opaque]
    pub open spec fn spec_minus(self, other: Binary32) -> Binary32 {
        self.spec_plus(other.spec_neg())
    }

    /// The rounded product.
    #[verifier::opaque]
    pub open spec fn spec_times(self, other: Binary32) -> Binary32 {
        let negative = self.negative() != other.negative();
        if self.is_nan() || other.is_nan() {
            Binary32::of(NAN)
        } else if self.infinite() || other.infinite() {
            if self.zero() || other.zero() {
                Binary32::of(NAN)
            } else {
                Binary32::spec_signed(negative, INFINITE as nat)
            }
        } else {
            Binary32::rounded(
                negative,
                units_of(self.magnitude()) * units_of(other.magnitude()),
                pow2(UNIT_EXPONENT as nat),
            )
        }
    }

    /// The rounded quotient.
    #[verifier::opaque]
    pub open spec fn spec_over(self, other: Binary32) -> Binary32 {
        let negative = self.negative() != other.negative();
        if self.is_nan() || other.is_nan() || (self.infinite() && other.infinite()) || (
        self.zero() && other.zero()) {
            Binary32::of(NAN)
        } else if self.infinite() || other.zero() {
            Binary32::spec_signed(negative, INFINITE as nat)
        } else if other.infinite() {
            Binary32::spec_signed(negative, 0)
        } else {
            Binary32::rounded(
                negative,
                units_of(self.magnitude()) * pow2(UNIT_EXPONENT as nat),
                units_of(other.magnitude()),
            )
        }
    }

    /// The sum, rounded to the nearest number.
    #[verifier::when_used_as_spec(spec_plus)]
    pub fn plus(self, other: Binary32) -> (result: Binary32)
        ensures
            result == self.spec_plus(other),
    {
        proof {
            reveal(Binary32::spec_plus);
        }
        if self.is_nan() || other.is_nan() {
            return Binary32::of(NAN);
        }
        let (a, b) = (self.size(), other.size());
        let (a_negative, b_negative) = (self.is_negative(), other.is_negative());
        if a == INFINITE {
            return if b == INFINITE && a_negative != b_negative {
                Binary32::of(NAN)
            } else {
                self
            };
        }
        if b == INFINITE {
            return other;
        }
        proof {
            lemma_units_at_least(a as nat);
            lemma_units_at_least(b as nat);
            lemma_nearest_exact(a as nat, 1);
            lemma_nearest_exact(b as nat, 1);
        }
        if b == 0 {
            return if a == 0 {
                Binary32::signed(a_negative && b_negative, 0)
            } else {
                self
            };
        }
        if a == 0 {
            return other;
        }
        let (a_significand, a_exponent) = parts(a);
        let (b_significand, b_exponent) = parts(b);
        let subtract = a_negative != b_negative;
        let (high_negative, flipped, magnitude) = if a_exponent >= b_exponent {
            let (flipped, magnitude) = combine(
                subtract,
                a_significand,
                a_exponent,
                b_significand,
                b_exponent,
            );
            (a_negative, flipped, magnitude)
        } else {
            let (flipped, magnitude) = combine(
                subtract,
                b_significand,
                b_exponent,
                a_significand,
                a_exponent,
            );
            (b_negative, flipped, magnitude)
        };
        if magnitude == 0 {
            Binary32::signed(a_negative && b_negative, 0)
        } else {
            Binary32::signed(high_negative != flipped, magnitude)
        }
    }

    /// The difference, rounded to the nearest number.
    #[verifier::when_used_as_spec(spec_minus)]
    pub fn minus(self, other: Binary32) -> (result: Binary32)
        ensures
            result == self.spec_minus(other),
    {
        proof {
            reveal(Binary32::spec_minus);
        }
        self.plus(other.neg())
    }

    /// The product, rounded to the nearest number.
    #[verifier::when_used_as_spec(spec_times)]
    pub fn times(self, other: Binary32) -> (result: Binary32)
        ensures
            result == self.spec_times(other),
    {
        proof {
            reveal(Binary32::spec_times);
        }
        if self.is_nan() || other.is_nan() {
            return Binary32::of(NAN);
        }
        let (a, b) = (self.size(), other.size());
        let negative = self.is_negative() != other.is_negative();
        if a == INFINITE || b == INFINITE {
            return if a == 0 || b == 0 {
                Binary32::of(NAN)
            } else {
                Binary32::signed(negative, INFINITE)
            };
        }
        let (a_significand, a_exponent) = parts(a);
        let (b_significand, b_exponent) = parts(b);
        proof {
            let x = a_significand as int;
            let y = b_significand as int;
            let p = pow2(a_exponent as nat);
            let q = pow2(b_exponent as nat);
            assert(0 <= x * y < 0x1_0000_0000_0000) by (nonlinear_arith)
                requires
                    0 <= x < 0x100_0000,
                    0 <= y < 0x100_0000,
            ;
            lemma_pow2_adds(a_exponent as nat, b_exponent as nat);
            assert((x * p) * (y * q) == (x * y) * (p * q)) by (nonlinear_arith);
            lemma_nearest_of_scaled(
                (x * y) as nat,
                (a_exponent + b_exponent) as nat,
                UNIT_EXPONENT as nat,
            );
        }
        let magnitude = round(
            a_significand * b_significand,
            (a_exponent + b_exponent) as i32 - UNIT_EXPONENT as i32,
        );
        Binary32::signed(negative, magnitude)
    }

    /// The quotient, rounded to the nearest number.
    #[verifier::when_used_as_spec(spec_over)]
    pub fn over(self, other: Binary32) -> (result: Binary32)
        ensures
            result == self.spec_over(other),
    {
        proof {
            reveal(Binary32::spec_over);
        }
        if self.is_nan() || other.is_nan() {
            return Binary32::of(NAN);
        }
        let (a, b) = (self.size(), other.size());
        let negative = self.is_negative() != other.is_negative();
        if a == INFINITE {
            return if b == INFINITE {
                Binary32::of(NAN)
            } else {
                Binary32::signed(negative, INFINITE)
            };
        }
        if b == 0 {
            return if a == 0 {
                Binary32::of(NAN)
            } else {
                Binary32::signed(negative, INFINITE)
            };
        }
        if b == INFINITE {
            return Binary32::signed(negative, 0);
        }
        proof {
            lemma_units_at_least(b as nat);
        }
        if a == 0 {
            proof {
                lemma_nearest_exact(0, units_of(b as nat));
                assert(0 * units_of(b as nat) == 0 && 0 * pow2(UNIT_EXPONENT as nat) == 0)
                    by (nonlinear_arith);
            }
            return Binary32::signed(negative, 0);
        }
        let (a_significand, a_exponent) = parts(a);
        let (b_significand, b_exponent) = parts(b);
        let magnitude = divide(a_significand, a_exponent, b_significand, b_exponent);
        Binary32::signed(negative, magnitude)
    }
}

/// Rounds the quotient of two positive finite numbers.
fn divide(a: u64, a_exponent: u32, b: u64, b_exponent: u32) -> (result: u32)
    requires
        0 < a < SIGNIFICAND_LIMIT,
        0 < b < SIGNIFICAND_LIMIT,
        a_exponent <= 253,
        b_exponent <= 253,
    ensures
        result == saturated(
            nearest(
                (a * pow2(a_exponent as nat)) as nat * pow2(UNIT_EXPONENT as nat),
                (b * pow2(b_exponent as nat)) as nat,
            ),
        ),
        result <= INFINITE,
{
    let length = bit_length(a);
    proof {
        lemma2_to64();
        lemma2_to64_rest();
        if length > 24 {
            if length > 25 {
                lemma_pow2_strictly_increases(24, (length - 1) as nat);
            }
        }
        lemma_pow2_adds(length as nat, (62 - length) as nat);
        lemma_pow2_adds((length - 1) as nat, (62 - length) as nat);
        let raise = pow2((62 - length) as nat);
        lemma_pow2_pos((62 - length) as nat);
        assert(a * raise < pow2(62)) by (nonlinear_arith)
            requires
                a < pow2(length as nat),
                raise > 0,
                pow2(62) == pow2(length as nat) * raise,
        ;
        assert(a * raise >= pow2(61)) by (nonlinear_arith)
            requires
                a >= pow2((length - 1) as nat),
                pow2(61) == pow2((length - 1) as nat) * raise,
        ;
    }
    let raised = shifted_up(a, 62 - length);
    let quotient = raised / b;
    let rest = raised % b;
    proof {
        lemma_fundamental_div_mod(raised as int, b as int);
        assert(quotient >= SIGNIFICAND_LIMIT && quotient <= raised) by (nonlinear_arith)
            requires
                raised == b * quotient + rest,
                0 <= rest < b,
                0 < b < 0x100_0000,
                raised >= 0x2000_0000_0000_0000,
                SIGNIFICAND_LIMIT == 0x100_0000,
        ;
        assert(quotient * b == b * quotient) by (nonlinear_arith);
        let by = (62 - length) as nat;
        let above = (a_exponent + UNIT_EXPONENT) as nat;
        let below = (b_exponent + by) as nat;
        let n = (a * pow2(a_exponent as nat)) as nat * pow2(UNIT_EXPONENT as nat);
        let d = (b * pow2(b_exponent as nat)) as nat;
        lemma_pow2_pos(below);
        lemma_pow2_pos(b_exponent as nat);
        lemma_pow2_adds(a_exponent as nat, UNIT_EXPONENT as nat);
        lemma_pow2_adds(b_exponent as nat, by);
        assert(d > 0) by (nonlinear_arith)
            requires
                d == b * pow2(b_exponent as nat),
                b > 0,
                pow2(b_exponent as nat) > 0,
        ;
        assert(b * pow2(below) > 0) by (nonlinear_arith)
            requires
                b > 0,
                pow2(below) > 0,
        ;
        assert(n * (b * pow2(below)) == (raised * pow2(above)) * d) by (nonlinear_arith)
            requires
                n == (a * pow2(a_exponent as nat)) * pow2(UNIT_EXPONENT as nat),
                d == b * pow2(b_exponent as nat),
                pow2(above) == pow2(a_exponent as nat) * pow2(UNIT_EXPONENT as nat),
                pow2(below) == pow2(b_exponent as nat) * pow2(by),
                raised == a * pow2(by),
        ;
        lemma_nearest_of_equal_quotients(
            n,
            d,
            raised as nat * pow2(above),
            b as nat * pow2(below),
        );
        if rest > 0 {
            lemma_nearest_of_scaled_sticky(raised as nat, b as nat, quotient as nat, above, below);
        } else {
            assert((raised * pow2(above)) * pow2(below) == (quotient * pow2(above)) * (b * pow2(
                below,
            ))) by (nonlinear_arith)
                requires
                    raised == b * quotient,
            ;
            lemma_nearest_of_equal_quotients(
                raised as nat * pow2(above),
                b as nat * pow2(below),
                quotient as nat * pow2(above),
                pow2(below),
            );
            lemma_nearest_of_scaled(quotient as nat, above, below);
        }
    }
    let exponent = a_exponent as i32 + UNIT_EXPONENT as i32 - b_exponent as i32 - (62
        - length as i32);
    if rest > 0 {
        round(2 * quotient + 1, exponent - 1)
    } else {
        round(quotient, exponent)
    }
}

/// The largest natural whose square does not exceed `value`.
fn floor_root(value: u64) -> (result: u64)
    requires
        value < 0x1_0000_0000_0000,
    ensures
        result < SIGNIFICAND_LIMIT,
        result * result <= value < (result + 1) * (result + 1),
{
    let mut root: u64 = 0;
    let mut step: u64 = SIGNIFICAND_LIMIT;
    let mut bits: u32 = 24;
    proof {
        lemma2_to64();
    }
    while bits > 0
        invariant
            bits <= 24,
            step == pow2(bits as nat),
            step <= SIGNIFICAND_LIMIT,
            root + step <= SIGNIFICAND_LIMIT,
            root * root <= value < (root + step) * (root + step),
        decreases bits,
    {
        proof {
            lemma_pow2_unfold(bits as nat);
            lemma_pow2_pos((bits - 1) as nat);
        }
        bits = bits - 1;
        step = step / 2;
        let tried = root + step;
        assert(tried * tried <= 0x1_0000_0000_0000) by (nonlinear_arith)
            requires
                0 <= tried <= 0x100_0000,
        ;
        if tried * tried <= value {
            root = tried;
        }
    }
    proof {
        lemma2_to64();
    }
    root
}

/// Rounds the square root of a positive finite number.
fn root_magnitude(significand: u64, exponent: u32) -> (result: u32)
    requires
        0 < significand < SIGNIFICAND_LIMIT,
        exponent <= 253,
    ensures
        result == nearest_root(
            (significand * pow2(exponent as nat)) as nat * pow2(UNIT_EXPONENT as nat),
        ),
        result < INFINITE,
{
    let length = bit_length(significand);
    proof {
        lemma2_to64();
        lemma2_to64_rest();
        if length > 25 {
            lemma_pow2_strictly_increases(24, (length - 1) as nat);
        }
    }
    let total = exponent + UNIT_EXPONENT;
    let raise = if (total - (47 - length)) % 2 == 0 {
        47 - length
    } else {
        48 - length
    };
    let halved = (total - raise) / 2;
    proof {
        lemma_pow2_adds(length as nat, raise as nat);
        lemma_pow2_adds((length - 1) as nat, raise as nat);
        lemma_pow2_pos(raise as nat);
        let p = pow2(raise as nat);
        assert(significand * p < pow2((length + raise) as nat)) by (nonlinear_arith)
            requires
                significand < pow2(length as nat),
                p > 0,
                pow2((length + raise) as nat) == pow2(length as nat) * p,
        ;
        assert(significand * p >= pow2((length - 1 + raise) as nat)) by (nonlinear_arith)
            requires
                significand >= pow2((length - 1) as nat),
                pow2((length - 1 + raise) as nat) == pow2((length - 1) as nat) * p,
        ;
        assert(length + raise == 47 || length + raise == 48);
    }
    let square = shifted_up(significand, raise);
    let floor = floor_root(square);
    proof {
        assert(floor + 1 > BINADE) by (nonlinear_arith)
            requires
                square < (floor + 1) * (floor + 1),
                square >= BINADE * BINADE,
        ;
        assert((floor + 1) * (floor + 1) == floor * floor + 2 * floor + 1) by (nonlinear_arith);
    }
    let rounded = if square - floor * floor <= floor {
        floor
    } else {
        floor + 1
    };
    proof {
        let n = (significand * pow2(exponent as nat)) as nat * pow2(UNIT_EXPONENT as nat);
        let scale = pow2(halved as nat);
        lemma_nearest_root_in_binade(square as nat, rounded as nat, halved as nat);
        lemma_pow2_adds(halved as nat, halved as nat);
        lemma_pow2_adds(raise as nat, (halved + halved) as nat);
        lemma_pow2_adds(exponent as nat, UNIT_EXPONENT as nat);
        assert(n == square * (scale * scale)) by (nonlinear_arith)
            requires
                n == (significand * pow2(exponent as nat)) * pow2(UNIT_EXPONENT as nat),
                square == significand * pow2(raise as nat),
                pow2(exponent as nat) * pow2(UNIT_EXPONENT as nat) == pow2(raise as nat) * (scale
                    * scale),
        ;
        lemma_nearest_root_is_unique(
            n,
            (rounded + halved * BINADE) as nat,
            (rounded + halved * BINADE) as nat,
        );
    }
    (rounded + halved as u64 * BINADE) as u32
}

impl Binary32 {
    /// The rounded square root. The root of a zero is that zero, and that of
    /// any other negative number is not a number.
    #[verifier::opaque]
    pub open spec fn spec_root(self) -> Binary32 {
        if self.is_nan() {
            Binary32::of(NAN)
        } else if self.zero() {
            self
        } else if self.negative() {
            Binary32::of(NAN)
        } else if self.infinite() {
            self
        } else {
            Binary32::spec_signed(
                false,
                nearest_root(units_of(self.magnitude()) * pow2(UNIT_EXPONENT as nat)),
            )
        }
    }

    /// The square root, rounded to the nearest number.
    #[verifier::when_used_as_spec(spec_root)]
    pub fn root(self) -> (result: Binary32)
        ensures
            result == self.spec_root(),
    {
        proof {
            reveal(Binary32::spec_root);
        }
        let size = self.size();
        if self.is_nan() {
            return Binary32::of(NAN);
        }
        if size == 0 {
            return self;
        }
        if self.is_negative() {
            return Binary32::of(NAN);
        }
        if size == INFINITE {
            return self;
        }
        let (significand, exponent) = parts(size);
        Binary32::signed(false, root_magnitude(significand, exponent))
    }

    /// The number nearest to a count.
    #[verifier::opaque]
    pub open spec fn spec_from_count(count: u64) -> Binary32 {
        Binary32::rounded(false, count as nat * pow2(UNIT_EXPONENT as nat), 1)
    }

    /// Converts a count, rounding it to the nearest number.
    #[verifier::when_used_as_spec(spec_from_count)]
    pub fn from_count(count: u64) -> (result: Binary32)
        ensures
            result == Binary32::spec_from_count(count),
    {
        proof {
            reveal(Binary32::spec_from_count);
            lemma2_to64();
            lemma_nearest_of_scaled(count as nat, UNIT_EXPONENT as nat, 0);
        }
        Binary32::signed(false, round(count, UNIT_EXPONENT as i32))
    }
}

/// The square root of a finite positive number is finite.
pub(crate) proof fn lemma_root_is_finite(x: Binary32)
    requires
        x.is_finite(),
        !x.negative(),
        !x.zero(),
    ensures
        nearest_root(units_of(x.magnitude()) * pow2(UNIT_EXPONENT as nat)) < INFINITE,
        x.root().is_finite(),
        !x.root().negative(),
{
    reveal(Binary32::spec_root);
    let top = (INFINITE - 1) as nat;
    let u = units_of(x.magnitude());
    let largest = units_of(top);
    let unit = pow2(UNIT_EXPONENT as nat);
    let n = u * unit;
    lemma_units_in_binade(0xff_ffff, 253);
    lemma_pow2_strictly_increases(UNIT_EXPONENT as nat, 253);
    assert(largest >= unit) by (nonlinear_arith)
        requires
            largest == 0xff_ffff * pow2(253),
            pow2(253) > unit,
    ;
    if x.magnitude() < top {
        lemma_units_increase(x.magnitude(), top);
    }
    lemma_units_increase(top, top + 1);
    let midpoint = doubled_midpoint(top);
    assert(4 * n < midpoint * midpoint) by (nonlinear_arith)
        requires
            n == u * unit,
            u <= largest,
            unit <= largest,
            midpoint > 2 * largest,
    ;
    law_nearest_root_is_nearest(n, top);
}

/// The square root of a number that is not negative is a number.
pub proof fn law_root_is_a_number(x: Binary32)
    requires
        !x.is_nan(),
        !x.negative(),
    ensures
        !x.root().is_nan(),
        !x.root().negative(),
{
    reveal(Binary32::spec_root);
    if !x.zero() && !x.infinite() {
        lemma_root_is_finite(x);
    }
}

/// The square root of a greater number is no lesser.
pub proof fn law_root_keeps_order(low: Binary32, high: Binary32)
    requires
        low.le(high),
        !low.negative(),
        !high.negative(),
    ensures
        low.root().le(high.root()),
{
    reveal(Binary32::spec_root);
    reveal(Binary32::spec_le);
    law_root_is_a_number(low);
    law_root_is_a_number(high);
    let (x, y) = (units_of(low.magnitude()), units_of(high.magnitude()));
    let unit = pow2(UNIT_EXPONENT as nat);
    lemma_units_at_least(low.root().magnitude());
    lemma_units_at_least(high.root().magnitude());
    lemma_units_at_least(high.magnitude());
    if low.is_finite() && !low.zero() {
        lemma_root_is_finite(low);
        if high.is_finite() {
            if high.zero() {
                lemma_units_increase(0, low.magnitude());
            } else {
                lemma_root_is_finite(high);
                assert(x * unit <= y * unit) by (nonlinear_arith)
                    requires
                        x <= y,
                ;
                law_nearest_root_keeps_order(x * unit, y * unit);
                let (a, b) = (nearest_root(x * unit), nearest_root(y * unit));
                if a < b {
                    lemma_units_increase(a, b);
                }
            }
        } else {
            lemma_units_increase(low.root().magnitude(), INFINITE as nat);
        }
    } else if low.infinite() {
        if high.is_finite() {
            lemma_units_increase(high.magnitude(), low.magnitude());
        }
    }
}

/// A square is not negative.
pub proof fn law_square_is_not_negative(x: Binary32)
    ensures
        x.times(x).is_nan() || !x.times(x).negative(),
{
    reveal(Binary32::spec_times);
}

/// A sum of numbers that are not negative is not negative.
pub proof fn law_sum_is_not_negative(a: Binary32, b: Binary32)
    requires
        a.is_nan() || !a.negative(),
        b.is_nan() || !b.negative(),
    ensures
        a.plus(b).is_nan() || !a.plus(b).negative(),
{
    reveal(Binary32::spec_plus);
}

/// A square root is not negative, unless it is a negative zero.
pub proof fn law_root_has_no_sign(x: Binary32)
    ensures
        x.root().is_nan() || x.root().zero() || !x.root().negative(),
{
    reveal(Binary32::spec_root);
    if !x.is_nan() && !x.negative() {
        law_root_is_a_number(x);
    }
}

/// A number that is not negative, times a greater positive number, gives no
/// lesser product. Where one product is not a number, neither is the other.
pub proof fn law_product_keeps_order(x: Binary32, lower: Binary32, higher: Binary32)
    requires
        x.is_nan() || x.zero() || !x.negative(),
        lower.is_finite(),
        higher.is_finite(),
        Binary32::of(ZERO).lt(lower),
        lower.le(higher),
    ensures
        x.times(lower).le(x.times(higher)) || (x.is_nan() && x.times(lower).is_nan()
            && x.times(higher).is_nan()),
{
    reveal(Binary32::spec_times);
    reveal(Binary32::spec_le);
    reveal(Binary32::spec_lt);
    let unit = pow2(UNIT_EXPONENT as nat);
    let u = units_of(x.magnitude());
    let low = units_of(lower.magnitude());
    let high = units_of(higher.magnitude());
    lemma_pow2_pos(UNIT_EXPONENT as nat);
    if x.is_finite() {
        assert(u * low <= u * high) by (nonlinear_arith)
            requires
                low <= high,
        ;
        law_nearest_keeps_order(u * low, u * high, unit);
        let a = saturated(nearest(u * low, unit));
        let b = saturated(nearest(u * high, unit));
        if a < b {
            lemma_units_increase(a, b);
        }
        if x.zero() {
            lemma_nearest_exact(0, unit);
            assert(0 * low == 0 && 0 * high == 0 && 0 * unit == 0) by (nonlinear_arith);
        }
    }
}

/// A product does not depend on the order of its factors.
pub proof fn law_product_commutes(a: Binary32, b: Binary32)
    ensures
        a.times(b) == b.times(a),
{
    reveal(Binary32::spec_times);
    lemma_mul_is_commutative(
        units_of(a.magnitude()) as int,
        units_of(b.magnitude()) as int,
    );
}

/// A sum is off by one part in two to the twenty-fourth at most.
pub proof fn law_sum_is_nearly_exact(a: Binary32, b: Binary32)
    requires
        a.is_finite(),
        b.is_finite(),
        a.plus(b).is_finite(),
    ensures
        SIGNIFICAND_LIMIT * absolute(a.plus(b).units() - (a.units() + b.units())) <= absolute(
            a.units() + b.units(),
        ),
{
    reveal(Binary32::spec_plus);
    let exact = a.units() + b.units();
    law_rounding_error(absolute(exact), 1);
    let k = units_of(nearest(absolute(exact), 1));
    assert(k * 1 == k);
}

/// A difference is off by one part in two to the twenty-fourth at most.
pub proof fn law_difference_is_nearly_exact(a: Binary32, b: Binary32)
    requires
        a.is_finite(),
        b.is_finite(),
        a.minus(b).is_finite(),
    ensures
        SIGNIFICAND_LIMIT * absolute(a.minus(b).units() - (a.units() - b.units())) <= absolute(
            a.units() - b.units(),
        ),
{
    reveal(Binary32::spec_minus);
    law_sum_is_nearly_exact(a, b.neg());
}

/// Half a number is off by half a unit and one part in two to the
/// twenty-fourth at most.
proof fn lemma_half_is_nearly_exact(x: Binary32)
    requires
        x.is_finite(),
    ensures
        x.times(Binary32::of(HALF)).is_finite(),
        SIGNIFICAND_LIMIT * absolute(2 * x.times(Binary32::of(HALF)).units() - x.units())
            <= SIGNIFICAND_LIMIT + absolute(x.units()),
{
    reveal(Binary32::spec_times);
    let u = units_of(x.magnitude());
    let half = pow2(148);
    lemma_units_in_binade(BINADE as nat, 125);
    lemma2_to64();
    lemma_pow2_adds(23, 125);
    assert(units_of(HALF as nat) == half);
    lemma_pow2_unfold(UNIT_EXPONENT as nat);
    lemma_pow2_pos(148);
    lemma_nearest_scales(u, 2, half);
    law_rounding_error(u, 2);
    law_nearest_keeps_order(u, u * 2, 2);
    lemma_nearest_exact(x.magnitude(), 2);
    let k = nearest(u, 2);
    assert(units_of(k) * 2 == 2 * units_of(k));
    lemma_units_at_least(k);
}

/// The middle between two numbers is off by half a unit and three parts in
/// two to the twenty-fifth of their sum at most.
pub proof fn law_middle_is_nearly_exact(a: Binary32, b: Binary32)
    requires
        a.is_finite(),
        b.is_finite(),
        a.plus(b).is_finite(),
    ensures
        a.plus(b).times(Binary32::of(HALF)).is_finite(),
        SIGNIFICAND_LIMIT * absolute(
            2 * a.plus(b).times(Binary32::of(HALF)).units() - (a.units() + b.units()),
        ) <= SIGNIFICAND_LIMIT + 3 * absolute(a.units() + b.units()),
{
    law_sum_is_nearly_exact(a, b);
    lemma_half_is_nearly_exact(a.plus(b));
}

} // verus!
