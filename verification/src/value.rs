//! The real values of binary32 numbers, and how far each operation is off.
//!
//! Where a result is finite, a sum or a root is off by one part in two to the
//! twenty-fourth at most, a product or a quotient by that and half of the
//! smallest subnormal.
use crate::arithmetic::law_sum_is_nearly_exact;
use crate::binary32::{absolute, Binary32, HALF, ONE, ZERO};
use crate::rounding::{
    distance, is_nearest_root, law_nearest_keeps_order, law_nearest_root_is_nearest,
    law_rounding_error, lemma_nearest_exact, lemma_units_at_least, lemma_units_in_binade,
    lemma_units_increase, nearest, nearest_root, saturated, units_of, BINADE, INFINITE,
    SIGNIFICAND_LIMIT,
};
use vstd::arithmetic::power2::{
    lemma2_to64, lemma2_to64_rest, lemma_pow2_adds, lemma_pow2_pos, pow2,
};
use vstd::prelude::*;

verus! {

/// The absolute value.
pub open spec fn size(r: real) -> real {
    if r < 0real {
        -r
    } else {
        r
    }
}

/// The number of units in one.
pub open spec fn one_in_units() -> real {
    713623846352979940529142984724747568191373312real
}

/// The smallest subnormal.
pub open spec fn unit() -> real {
    1real / one_in_units()
}

/// One part in two to the twenty-fourth: the most that a rounded result is off
/// by, relative to it.
pub open spec fn part(r: real) -> real {
    r / 16777216real
}

/// Half of the first power of two past every finite number.
pub open spec fn large() -> real {
    170141183460469231731687303715884105728real
}

/// The number that a bit pattern stands for.
pub open spec fn value(x: Binary32) -> real {
    (x.units() as real) * unit()
}

/// Whether a number is finite and stands for a real within some error.
pub open spec fn near(x: Binary32, r: real, error: real) -> bool {
    x.is_finite() && size(value(x) - r) <= error
}

pub(crate) proof fn lemma_one_in_units()
    ensures
        pow2(149) as real == one_in_units(),
        pow2(149) == 713623846352979940529142984724747568191373312,
        pow2(276) as real == large() * one_in_units(),
        one_in_units() * unit() == 1real,
        0real < unit() < 1real / 1000000000000000000000000000000000000000000real,
{
    lemma2_to64();
    lemma2_to64_rest();
    lemma_pow2_adds(64, 64);
    lemma_pow2_adds(21, 128);
    lemma_pow2_adds(63, 64);
    lemma_pow2_adds(127, 149);
    assert(pow2(127) == 170141183460469231731687303715884105728);
    assert(pow2(276) as real == large() * one_in_units()) by (nonlinear_arith)
        requires
            pow2(276) == pow2(127) * pow2(149),
            pow2(127) == 170141183460469231731687303715884105728,
            pow2(149) == 713623846352979940529142984724747568191373312,
    ;
}

/// The product of two integers as a real.
pub(crate) proof fn lemma_real_product(a: int, b: int)
    ensures
        (a * b) as real == (a as real) * (b as real),
{
    assert((a * b) as real == (a as real) * (b as real)) by (nonlinear_arith);
}

/// Rounding does not go past a magnitude that the quotient does not go past.
pub(crate) proof fn lemma_rounds_within(n: nat, d: nat, magnitude: nat)
    requires
        d > 0,
        n <= units_of(magnitude) * d,
    ensures
        nearest(n, d) <= magnitude,
{
    law_nearest_keeps_order(n, units_of(magnitude) * d, d);
    lemma_nearest_exact(magnitude, d);
}

/// A quotient up to a great bound is rounded to something finite.
proof fn lemma_rounds_to_finite(n: nat, d: nat)
    requires
        d > 0,
        (n as real) <= large() * one_in_units() * (d as real),
    ensures
        nearest(n, d) < INFINITE,
        saturated(nearest(n, d)) == nearest(n, d),
{
    lemma_one_in_units();
    lemma2_to64();
    lemma_pow2_adds(23, 253);
    lemma_units_in_binade(BINADE as nat, 253);
    let top = BINADE as nat + 253 * BINADE as nat;
    assert(units_of(top) == pow2(276));
    lemma_real_product(pow2(276) as int, d as int);
    assert(n <= units_of(top) * d);
    lemma_rounds_within(n, d, top);
}

/// The value of a number with a sign.
pub(crate) proof fn lemma_value_of_signed(x: Binary32)
    ensures
        value(x) == if x.negative() {
            -((units_of(x.magnitude()) as real) * unit())
        } else {
            (units_of(x.magnitude()) as real) * unit()
        },
        size(value(x)) == (units_of(x.magnitude()) as real) * unit(),
        x.zero() <==> value(x) == 0real,
{
    lemma_one_in_units();
    lemma_units_at_least(x.magnitude());
    let u = units_of(x.magnitude()) as real;
    assert((-u) * unit() == -(u * unit())) by (nonlinear_arith);
    assert(u >= 0real);
    assert(u * unit() >= 0real && (u > 0real ==> u * unit() > 0real)) by (nonlinear_arith)
        requires
            u >= 0real,
            unit() > 0real,
    ;
    assert(0real * unit() == 0real);
}

/// A number without a sign is not below nought.
pub(crate) proof fn lemma_value_of_sign(x: Binary32)
    ensures
        !x.negative() ==> value(x) >= 0real,
        x.negative() ==> value(x) <= 0real,
{
    lemma_value_of_signed(x);
    assert(size(value(x)) >= 0real);
}

/// A sum and a difference, as far as they are not too great.
pub proof fn law_value_of_sum(a: Binary32, b: Binary32)
    requires
        a.is_finite(),
        b.is_finite(),
    ensures
        size(value(a) + value(b)) <= large() ==> near(
            a.plus(b),
            value(a) + value(b),
            part(size(value(a) + value(b))),
        ),
        size(value(a) - value(b)) <= large() ==> near(
            a.minus(b),
            value(a) - value(b),
            part(size(value(a) - value(b))),
        ),
{
    lemma_value_of_neg(b);
    if size(value(a) + value(b)) <= large() {
        lemma_value_of_sum(a, b);
    }
    if size(value(a) - value(b)) <= large() {
        lemma_value_of_sum(a, b.neg());
    }
    reveal(Binary32::spec_minus);
}

proof fn lemma_value_of_sum(a: Binary32, b: Binary32)
    requires
        a.is_finite(),
        b.is_finite(),
        size(value(a) + value(b)) <= large(),
    ensures
        near(a.plus(b), value(a) + value(b), part(size(value(a) + value(b)))),
{
    lemma_one_in_units();
    reveal(Binary32::spec_plus);
    let (x, y) = (a.units(), b.units());
    let exact = x + y;
    let sum = exact as real;
    assert(sum * unit() == value(a) + value(b)) by (nonlinear_arith)
        requires
            sum == (x as real) + (y as real),
            value(a) == (x as real) * unit(),
            value(b) == (y as real) * unit(),
    ;
    assert(size(sum) <= large() * one_in_units()) by (nonlinear_arith)
        requires
            size(sum * unit()) <= large(),
            one_in_units() * unit() == 1real,
            one_in_units() > 0real,
    ;
    assert((absolute(exact) as real) == size(sum));
    lemma_rounds_to_finite(absolute(exact), 1);
    lemma_value_of_finite_sum(a, b);
}

proof fn lemma_value_of_finite_sum(a: Binary32, b: Binary32)
    requires
        a.is_finite(),
        b.is_finite(),
        a.plus(b).is_finite(),
    ensures
        near(a.plus(b), value(a) + value(b), part(size(value(a) + value(b)))),
{
    lemma_one_in_units();
    reveal(Binary32::spec_plus);
    let (x, y) = (a.units(), b.units());
    let exact = x + y;
    let sum = exact as real;
    assert(sum * unit() == value(a) + value(b)) by (nonlinear_arith)
        requires
            sum == (x as real) + (y as real),
            value(a) == (x as real) * unit(),
            value(b) == (y as real) * unit(),
    ;
    assert((absolute(exact) as real) == size(sum));
    law_sum_is_nearly_exact(a, b);
    let z = a.plus(b).units();
    let off = z - exact;
    assert((absolute(off) as real) == size(off as real));
    assert(16777216 * absolute(off) <= absolute(exact));
    assert(16777216real * size(off as real) <= size(sum));
    assert(size(value(a.plus(b)) - (value(a) + value(b))) <= part(
        size(value(a) + value(b)),
    )) by (nonlinear_arith)
        requires
            value(a.plus(b)) == (z as real) * unit(),
            off as real == (z as real) - sum,
            sum * unit() == value(a) + value(b),
            16777216real * size(off as real) <= size(sum),
            unit() > 0real,
    ;
}

/// A difference, as far as it is finite.
pub proof fn law_value_of_finite_difference(a: Binary32, b: Binary32)
    requires
        a.is_finite(),
        b.is_finite(),
        a.minus(b).is_finite(),
    ensures
        near(a.minus(b), value(a) - value(b), part(size(value(a) - value(b)))),
{
    lemma_value_of_neg(b);
    reveal(Binary32::spec_minus);
    lemma_value_of_finite_sum(a, b.neg());
}

pub(crate) proof fn lemma_value_of_neg(x: Binary32)
    ensures
        value(x.neg()) == -value(x),
        x.is_finite() ==> x.neg().is_finite(),
{
    lemma_value_of_signed(x);
    lemma_value_of_signed(x.neg());
}

/// A product, as far as it is not too great.
pub proof fn law_value_of_product(a: Binary32, b: Binary32)
    requires
        a.is_finite(),
        b.is_finite(),
        size(value(a) * value(b)) <= large(),
    ensures
        near(
            a.times(b),
            value(a) * value(b),
            part(size(value(a) * value(b))) + unit() / 2real,
        ),
{
    lemma_one_in_units();
    lemma_pow2_pos(149);
    reveal(Binary32::spec_times);
    lemma_value_of_signed(a);
    lemma_value_of_signed(b);
    lemma_value_of_signed(a.times(b));
    let (x, y) = (units_of(a.magnitude()), units_of(b.magnitude()));
    let n = x * y;
    let d = pow2(149);
    let one = one_in_units();
    lemma_real_product(x as int, y as int);
    let m = n as real;
    let exact = m * (unit() * unit());
    assert(m >= 0real);
    assert(size(value(a) * value(b)) == exact && value(a) * value(b) == (if a.negative()
        != b.negative() {
        -exact
    } else {
        exact
    })) by (nonlinear_arith)
        requires
            exact == m * (unit() * unit()),
            m == (x as real) * (y as real),
            m >= 0real,
            unit() > 0real,
            value(a) == (if a.negative() {
                -((x as real) * unit())
            } else {
                (x as real) * unit()
            }),
            value(b) == (if b.negative() {
                -((y as real) * unit())
            } else {
                (y as real) * unit()
            }),
    ;
    assert(m <= large() * one * one) by (nonlinear_arith)
        requires
            m * (unit() * unit()) <= large(),
            one * unit() == 1real,
            one > 0real,
            unit() > 0real,
            m >= 0real,
    ;
    lemma_rounds_to_finite(n, d);
    law_value_of_finite_product(a, b);
}

/// A product, as far as it is finite.
pub proof fn law_value_of_finite_product(a: Binary32, b: Binary32)
    requires
        a.is_finite(),
        b.is_finite(),
        a.times(b).is_finite(),
    ensures
        near(
            a.times(b),
            value(a) * value(b),
            part(size(value(a) * value(b))) + unit() / 2real,
        ),
{
    lemma_one_in_units();
    lemma_pow2_pos(149);
    reveal(Binary32::spec_times);
    lemma_value_of_signed(a);
    lemma_value_of_signed(b);
    lemma_value_of_signed(a.times(b));
    let (x, y) = (units_of(a.magnitude()), units_of(b.magnitude()));
    let n = x * y;
    let d = pow2(149);
    let one = one_in_units();
    lemma_real_product(x as int, y as int);
    let m = n as real;
    let exact = m * (unit() * unit());
    assert(m >= 0real);
    assert(size(value(a) * value(b)) == exact && value(a) * value(b) == (if a.negative()
        != b.negative() {
        -exact
    } else {
        exact
    })) by (nonlinear_arith)
        requires
            exact == m * (unit() * unit()),
            m == (x as real) * (y as real),
            m >= 0real,
            unit() > 0real,
            value(a) == (if a.negative() {
                -((x as real) * unit())
            } else {
                (x as real) * unit()
            }),
            value(b) == (if b.negative() {
                -((y as real) * unit())
            } else {
                (y as real) * unit()
            }),
    ;
    law_rounding_error(n, d);
    let k = units_of(nearest(n, d));
    lemma_real_product(k as int, d as int);
    let off = distance(k, d, n);
    assert(off as real == size((k as real) * one - m));
    assert(16777216real * (2real * (off as real)) <= 16777216real * one + 2real * m);
    let kept = (k as real) * unit();
    assert(size(kept - exact) <= part(exact) + unit() / 2real) by (nonlinear_arith)
        requires
            kept == (k as real) * unit(),
            exact == m * (unit() * unit()),
            16777216real * (2real * size((k as real) * one - m)) <= 16777216real * one + 2real * m,
            one * unit() == 1real,
            unit() > 0real,
            one > 0real,
    ;
}

/// A share of a number that is not negative is not greater than the number.
pub proof fn law_share_is_not_greater(a: Binary32, share: Binary32)
    requires
        a.is_finite(),
        value(a) >= 0real,
        share.is_finite(),
        0real <= value(share) <= 1real,
    ensures
        a.times(share).is_finite(),
        0real <= value(a.times(share)) <= value(a),
{
    lemma_one_in_units();
    lemma_pow2_pos(149);
    reveal(Binary32::spec_times);
    lemma_value_of_signed(a);
    lemma_value_of_signed(share);
    lemma_value_of_signed(a.times(share));
    lemma_bounded_value(share, 0);
    lemma2_to64();
    let (x, y) = (units_of(a.magnitude()), units_of(share.magnitude()));
    assert(y <= pow2(149));
    assert(x * y <= x * pow2(149)) by (nonlinear_arith)
        requires
            y <= pow2(149),
    ;
    lemma_rounds_within(x * y, pow2(149), a.magnitude());
    let (m, n) = (nearest(x * y, pow2(149)), a.magnitude());
    if m < n {
        lemma_units_increase(m, n);
    }
    let (p, q) = (units_of(m) as real, x as real);
    assert(0real <= p <= q);
    assert(0real <= p * unit() <= q * unit()) by (nonlinear_arith)
        requires
            0real <= p <= q,
            unit() > 0real,
    ;
    if x == 0 || y == 0 {
        assert(x * y == 0) by (nonlinear_arith)
            requires
                x == 0 || y == 0,
        ;
        lemma_nearest_exact(0, pow2(149));
        assert(units_of(0) == 0);
        assert(0 * pow2(149) == 0);
    }
}

/// A quotient, as far as it is not too great.
pub proof fn law_value_of_quotient(a: Binary32, b: Binary32)
    requires
        a.is_finite(),
        b.is_finite(),
        value(b) != 0real,
        size(value(a) / value(b)) <= large(),
    ensures
        near(
            a.over(b),
            value(a) / value(b),
            part(size(value(a) / value(b))) + unit() / 2real,
        ),
{
    lemma_one_in_units();
    lemma_pow2_pos(149);
    reveal(Binary32::spec_over);
    lemma_value_of_signed(a);
    lemma_value_of_signed(b);
    lemma_value_of_signed(a.over(b));
    let (x, y) = (units_of(a.magnitude()), units_of(b.magnitude()));
    let one = one_in_units();
    let n = x * pow2(149);
    lemma_real_product(x as int, pow2(149) as int);
    lemma_units_at_least(b.magnitude());
    let (p, q) = (x as real, y as real);
    assert(q > 0real && p >= 0real);
    let exact = p / q;
    assert(size(value(a) / value(b)) == exact && value(a) / value(b) == (if a.negative()
        != b.negative() {
        -exact
    } else {
        exact
    })) by (nonlinear_arith)
        requires
            exact == p / q,
            p >= 0real,
            q > 0real,
            unit() > 0real,
            value(a) == (if a.negative() {
                -(p * unit())
            } else {
                p * unit()
            }),
            value(b) == (if b.negative() {
                -(q * unit())
            } else {
                q * unit()
            }),
    ;
    assert(n as real <= large() * one * q) by (nonlinear_arith)
        requires
            n as real == p * one,
            p / q <= large(),
            q > 0real,
            one > 0real,
    ;
    lemma_rounds_to_finite(n, y);
    law_rounding_error(n, y);
    let k = units_of(nearest(n, y));
    lemma_real_product(k as int, y as int);
    let off = distance(k, y, n);
    assert(off as real == size((k as real) * q - p * one));
    assert(16777216real * (2real * (off as real)) <= 16777216real * q + 2real * (p * one));
    let kept = (k as real) * unit();
    assert(size(kept - exact) <= part(exact) + unit() / 2real) by (nonlinear_arith)
        requires
            kept == (k as real) * unit(),
            exact == p / q,
            16777216real * (2real * size((k as real) * q - p * one)) <= 16777216real * q + 2real * (p
                * one),
            one * unit() == 1real,
            unit() > 0real,
            one > 0real,
            q > 0real,
            p >= 0real,
    ;
}

/// From the least normal number on, the next number is one part in two to the
/// twenty-third farther at most.
proof fn lemma_step_to_next(magnitude: nat)
    requires
        magnitude >= BINADE,
    ensures
        BINADE * (units_of(magnitude + 1) - units_of(magnitude)) <= units_of(magnitude),
        units_of(magnitude) < units_of(magnitude + 1),
    decreases magnitude,
{
    lemma_units_increase(magnitude, magnitude + 1);
    if magnitude >= SIGNIFICAND_LIMIT {
        lemma_step_to_next((magnitude - BINADE) as nat);
    } else if magnitude + 1 == SIGNIFICAND_LIMIT {
        assert(units_of(BINADE as nat) == BINADE);
    }
}

/// The root that is nearest is close to the root.
proof fn lemma_root_error(n: nat, magnitude: nat)
    requires
        is_nearest_root(n, magnitude),
        n >= pow2(149),
    ensures
        ({
            let u = units_of(magnitude) as real;
            &&& u > 0real
            &&& size(u * u - (n as real)) <= 3real * part(n as real)
        }),
{
    lemma_one_in_units();
    let u = units_of(magnitude);
    let next = units_of(magnitude + 1);
    if magnitude <= 0x100_0000 {
        lemma_units_at_least(magnitude);
        assert(units_of(BINADE as nat) == BINADE);
        assert(units_of(0x80_0001) == 0x80_0001);
        assert(u <= 0x100_0000);
        assert(next <= 0x100_0002);
        assert((u + next) * (u + next) <= 0x300_0000 * 0x300_0000) by (nonlinear_arith)
            requires
                0 <= u + next <= 0x300_0000,
        ;
        assert(false);
    }
    let last = (magnitude - 1) as nat;
    let before = units_of(last);
    lemma_step_to_next(magnitude);
    lemma_step_to_next(last);
    lemma_units_at_least(last);
    let (p, q, r, m) = (before as real, u as real, next as real, n as real);
    assert(8388608 * (next - u) <= u && 8388608 * (u - before) <= before);
    assert(8388608real * (r - q) <= q && 8388608real * (q - p) <= p && 0real < p < q < r);
    lemma_real_product((before + u) as int, (before + u) as int);
    lemma_real_product((u + next) as int, (u + next) as int);
    assert((p + q) * (p + q) <= 4real * m && 4real * m <= (q + r) * (q + r));
    assert(size(q * q - m) <= 3real * part(m)) by (nonlinear_arith)
        requires
            8388608real * (r - q) <= q,
            8388608real * (q - p) <= p,
            0real < p < q < r,
            (p + q) * (p + q) <= 4real * m,
            4real * m <= (q + r) * (q + r),
    ;
}

/// A square root of a number that is not negative.
pub proof fn law_value_of_root(x: Binary32)
    requires
        x.is_finite(),
        value(x) >= 0real,
    ensures
        x.root().is_finite(),
        value(x.root()) >= 0real,
        value(x) > 0real ==> value(x.root()) > 0real,
        size(value(x.root()) * value(x.root()) - value(x)) <= 3real * part(value(x)),
{
    lemma_one_in_units();
    lemma_value_of_signed(x);
    reveal(Binary32::spec_root);
    if x.zero() {
        lemma_value_of_signed(x.root());
        assert(0real * 0real == 0real);
    } else {
        lemma_units_at_least(x.magnitude());
        let n = units_of(x.magnitude()) * pow2(149);
        lemma_real_product(units_of(x.magnitude()) as int, pow2(149) as int);
        assert(n >= pow2(149)) by (nonlinear_arith)
            requires
                n == units_of(x.magnitude()) * pow2(149),
                units_of(x.magnitude()) >= 1,
                pow2(149) > 0,
        ;
        crate::arithmetic::lemma_root_is_finite(x);
        law_nearest_root_is_nearest(n, 0);
        let magnitude = nearest_root(n);
        lemma_root_error(n, magnitude);
        lemma_value_of_signed(x.root());
        let u = units_of(magnitude) as real;
        let m = units_of(x.magnitude()) as real;
        let (s, one) = (unit(), one_in_units());
        assert(size((u * s) * (u * s) - m * s) <= 3real * part(m * s)) by (nonlinear_arith)
            requires
                size(u * u - m * one) <= 3real * part(m * one),
                one * s == 1real,
                s > 0real,
                one > 0real,
        ;
        assert(u * s > 0real) by (nonlinear_arith)
            requires
                u > 0real,
                s > 0real,
        ;
    }
}

/// Finite numbers are ordered by their values.
pub proof fn law_order_of_values(a: Binary32, b: Binary32)
    requires
        a.is_finite(),
        b.is_finite(),
    ensures
        a.le(b) <==> value(a) <= value(b),
        a.lt(b) <==> value(a) < value(b),
{
    lemma_one_in_units();
    reveal(Binary32::spec_le);
    reveal(Binary32::spec_lt);
    let (x, y) = (a.units() as real, b.units() as real);
    assert((x <= y <==> x * unit() <= y * unit()) && (x < y <==> x * unit() < y * unit()))
        by (nonlinear_arith)
        requires
            unit() > 0real,
    ;
}

/// The values of the constants.
pub proof fn law_values_of_constants()
    ensures
        Binary32::of(ZERO).is_finite() && value(Binary32::of(ZERO)) == 0real,
        Binary32::of(HALF).is_finite() && value(Binary32::of(HALF)) == 1real / 2real,
        Binary32::of(ONE).is_finite() && value(Binary32::of(ONE)) == 1real,
{
    lemma_one_in_units();
    lemma2_to64();
    lemma_units_in_binade(BINADE as nat, 125);
    lemma_pow2_adds(23, 125);
    lemma_pow2_adds(1, 148);
    lemma_units_in_binade(BINADE as nat, 126);
    lemma_pow2_adds(23, 126);
    assert(units_of(ONE as nat) == pow2(149));
    assert(2 * units_of(HALF as nat) == pow2(149));
}

/// A small multiple of a power of two of units is a number.
pub(crate) proof fn lemma_small_multiple(c: nat, e: nat) -> (magnitude: nat)
    requires
        c <= SIGNIFICAND_LIMIT,
        e <= 252,
    ensures
        units_of(magnitude) == c * pow2(e),
        magnitude < INFINITE,
    decreases e,
{
    lemma2_to64();
    if c >= BINADE {
        lemma_units_in_binade(c, e);
        c + e * BINADE as nat
    } else if e == 0 {
        assert(c * pow2(0) == c);
        c
    } else {
        let below = (e - 1) as nat;
        lemma_pow2_adds(1, below);
        assert((2 * c) * pow2(below) == c * pow2(e)) by (nonlinear_arith)
            requires
                pow2(e) == 2 * pow2(below),
        ;
        lemma_small_multiple(2 * c, below)
    }
}

/// Counts up to two to the twenty-fourth are kept as they are.
pub proof fn law_value_of_count(count: u64)
    requires
        1 <= count <= 16777216,
    ensures
        Binary32::from_count(count).is_finite(),
        value(Binary32::from_count(count)) == count as real,
{
    reveal(Binary32::spec_from_count);
    lemma_one_in_units();
    let n = count as nat * pow2(149);
    let magnitude = lemma_small_multiple(count as nat, 149);
    lemma_nearest_exact(magnitude, 1);
    assert(n * 1 == n);
    lemma_value_of_signed(Binary32::from_count(count));
    lemma_real_product(count as int, pow2(149) as int);
    let c = count as real;
    let (one, s) = (one_in_units(), unit());
    assert((c * one) * s == c) by (nonlinear_arith)
        requires
            one * s == 1real,
    ;
}

/// A bound in units is a bound on the value.
pub(crate) proof fn lemma_bounded_value(x: Binary32, k: nat)
    requires
        x.is_finite(),
    ensures
        units_of(x.magnitude()) <= pow2(149 + k) <==> size(value(x)) <= pow2(k) as real,
{
    lemma_one_in_units();
    lemma_value_of_signed(x);
    lemma_pow2_adds(149, k);
    lemma_real_product(pow2(149) as int, pow2(k) as int);
    let u = units_of(x.magnitude()) as real;
    let p = pow2(k) as real;
    let (s, one) = (unit(), one_in_units());
    assert(u <= one * p <==> u * s <= p) by (nonlinear_arith)
        requires
            one * s == 1real,
            s > 0real,
            one > 0real,
    ;
}

} // verus!
