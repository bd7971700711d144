//! Rounding of exact rationals to the binary32 grid.
//!
//! Every finite binary32 number is a whole multiple of the smallest subnormal,
//! which is called a *unit* here. A magnitude (the bit pattern without its sign
//! bit) stands for a whole number of units, and rounding takes an exact
//! quotient of naturals, counted in units, to a magnitude.
use vstd::arithmetic::div_mod::{
    lemma_div_is_ordered, lemma_fundamental_div_mod, lemma_fundamental_div_mod_converse,
};
use vstd::arithmetic::mul::{lemma_mul_is_associative, lemma_mul_is_commutative};
use vstd::arithmetic::power2::{lemma_pow2_adds, lemma_pow2_pos, lemma_pow2_unfold, pow2};
use vstd::prelude::*;

verus! {

/// One past the largest significand: two to the twenty-fourth.
pub const SIGNIFICAND_LIMIT: u64 = 0x100_0000;

/// The distance between two magnitudes whose units differ by a factor of two.
pub const BINADE: u64 = 0x80_0000;

/// The magnitude of an infinity.
pub const INFINITE: u32 = 0x7f80_0000;

/// The number of units that a magnitude stands for.
pub open spec fn units_of(magnitude: nat) -> nat
    decreases magnitude,
{
    if magnitude < SIGNIFICAND_LIMIT {
        magnitude
    } else {
        2 * units_of((magnitude - BINADE) as nat)
    }
}

/// The natural nearest to `n / d`, the even one of two equally near.
pub open spec fn half_even(n: nat, d: nat) -> nat {
    let quotient = n / d;
    let doubled_rest = 2 * (n % d);
    if doubled_rest < d || (doubled_rest == d && quotient % 2 == 0) {
        quotient
    } else {
        quotient + 1
    }
}

/// The magnitude nearest to `n / d` units, the even one of two equally near.
///
/// Below the significand limit consecutive magnitudes are one unit apart;
/// every doubling of the value doubles the spacing and moves on by one binade.
pub open spec fn nearest(n: nat, d: nat) -> nat
    decreases n - d,
{
    if d == 0 || n < SIGNIFICAND_LIMIT * d {
        half_even(n, d)
    } else {
        BINADE as nat + nearest(n, 2 * d)
    }
}

/// A magnitude past the largest finite one becomes an infinity.
pub open spec fn saturated(magnitude: nat) -> nat {
    if magnitude < INFINITE {
        magnitude
    } else {
        INFINITE as nat
    }
}

/// A common factor does not change the nearest natural.
pub proof fn lemma_half_even_scales(n: nat, d: nat, c: nat)
    requires
        d > 0,
        c > 0,
    ensures
        half_even(n * c, d * c) == half_even(n, d),
{
    let q = n / d;
    let r = n % d;
    lemma_fundamental_div_mod(n as int, d as int);
    assert(n * c == q * (d * c) + r * c) by (nonlinear_arith)
        requires
            n == d * q + r,
    ;
    assert(0 <= r * c < d * c) by (nonlinear_arith)
        requires
            0 <= r < d,
            c > 0,
    ;
    lemma_fundamental_div_mod_converse((n * c) as int, (d * c) as int, q as int, (r * c) as int);
    assert((2 * r < d) == (2 * (r * c) < d * c)) by (nonlinear_arith)
        requires
            c > 0,
    ;
    assert((2 * r == d) == (2 * (r * c) == d * c)) by (nonlinear_arith)
        requires
            c > 0,
    ;
}

/// Rounding depends on the quotient alone: a common factor changes nothing.
pub proof fn lemma_nearest_scales(n: nat, d: nat, c: nat)
    requires
        d > 0,
        c > 0,
    ensures
        nearest(n * c, d * c) == nearest(n, d),
    decreases n - d,
{
    assert(d * c > 0) by (nonlinear_arith)
        requires
            d > 0,
            c > 0,
    ;
    assert((n < SIGNIFICAND_LIMIT * d) == (n * c < SIGNIFICAND_LIMIT * (d * c)))
        by (nonlinear_arith)
        requires
            c > 0,
    ;
    if n < SIGNIFICAND_LIMIT * d {
        lemma_half_even_scales(n, d, c);
    } else {
        lemma_nearest_scales(n, 2 * d, c);
        assert((2 * d) * c == 2 * (d * c)) by (nonlinear_arith);
    }
}

/// Equal quotients round to equal magnitudes.
pub proof fn lemma_nearest_of_equal_quotients(n: nat, d: nat, m: nat, c: nat)
    requires
        d > 0,
        c > 0,
        n * c == m * d,
    ensures
        nearest(n, d) == nearest(m, c),
{
    lemma_nearest_scales(n, d, c);
    lemma_nearest_scales(m, c, d);
    lemma_mul_is_commutative(d as int, c as int);
}

/// Once the binade of a quotient is known, rounding is one `half_even`.
pub proof fn lemma_nearest_in_binade(n: nat, d: nat, e: nat)
    requires
        d > 0,
        n < SIGNIFICAND_LIMIT * (d * pow2(e)),
        e > 0 ==> n >= BINADE * (d * pow2(e)),
    ensures
        nearest(n, d) == half_even(n, d * pow2(e)) + e * BINADE,
    decreases e,
{
    if e == 0 {
        vstd::arithmetic::power2::lemma2_to64();
        assert(d * pow2(0) == d) by (nonlinear_arith)
            requires
                pow2(0) == 1,
        ;
    } else {
        let below = (e - 1) as nat;
        lemma_pow2_unfold(e);
        lemma_pow2_pos(below);
        assert((2 * d) * pow2(below) == d * pow2(e)) by (nonlinear_arith)
            requires
                pow2(e) == 2 * pow2(below),
        ;
        assert(d * pow2(e) >= 2 * d) by (nonlinear_arith)
            requires
                pow2(e) == 2 * pow2(below),
                pow2(below) >= 1,
        ;
        lemma_nearest_in_binade(n, 2 * d, below);
        assert(BINADE + below * BINADE == e * BINADE) by (nonlinear_arith)
            requires
                e == below + 1,
        ;
    }
}

/// A magnitude read as significand and binade.
pub proof fn lemma_units_in_binade(significand: nat, e: nat)
    requires
        significand <= SIGNIFICAND_LIMIT,
        e > 0 ==> significand >= BINADE,
    ensures
        units_of(significand + e * BINADE as nat) == significand * pow2(e),
    decreases e,
{
    vstd::arithmetic::power2::lemma2_to64();
    if e == 0 {
        if significand == SIGNIFICAND_LIMIT {
            assert(units_of((SIGNIFICAND_LIMIT - BINADE) as nat) == BINADE);
        }
        assert(significand * pow2(0) == significand) by (nonlinear_arith)
            requires
                pow2(0) == 1,
        ;
        assert(e * BINADE == 0);
    } else {
        let below = (e - 1) as nat;
        lemma_pow2_unfold(e);
        assert(significand + e * BINADE - BINADE == significand + below * BINADE)
            by (nonlinear_arith)
            requires
                e == below + 1,
        ;
        assert(e * BINADE >= BINADE) by (nonlinear_arith)
            requires
                e >= 1,
        ;
        lemma_units_in_binade(significand, below);
        assert(significand * pow2(e) == 2 * (significand * pow2(below))) by (nonlinear_arith)
            requires
                pow2(e) == 2 * pow2(below),
        ;
    }
}

/// Half of a binade never decides a quotient that has a rest: with `n / d == q`
/// and something left over, only `q` matters for rounding to a coarser grid.
proof fn lemma_half_even_with_rest(n: nat, d: nat, q: nat, c: nat)
    requires
        d > 0,
        c > 0,
        q * d < n < q * d + d,
    ensures
        half_even(n, d * (2 * c)) == if q % (2 * c) < c {
            q / (2 * c)
        } else {
            q / (2 * c) + 1
        },
{
    let step = 2 * c;
    let a = q / step;
    let b = q % step;
    let r = (n - q * d) as nat;
    lemma_fundamental_div_mod(q as int, step as int);
    assert(n == a * (d * step) + (b * d + r)) by (nonlinear_arith)
        requires
            n == q * d + r,
            q == step * a + b,
    ;
    assert(b * d + r < d * step) by (nonlinear_arith)
        requires
            b <= step - 1,
            r < d,
    ;
    lemma_fundamental_div_mod_converse(
        n as int,
        (d * step) as int,
        a as int,
        (b * d + r) as int,
    );
    if b < c {
        assert(2 * (b * d + r) < d * step) by (nonlinear_arith)
            requires
                b <= c - 1,
                r < d,
                step == 2 * c,
        ;
    } else {
        assert(2 * (b * d + r) > d * step) by (nonlinear_arith)
            requires
                b >= c,
                r > 0,
                step == 2 * c,
        ;
    }
}

proof fn lemma_nearest_with_rest(n: nat, d: nat, m: nat, f: nat, q: nat, c: nat)
    requires
        d > 0,
        f > 0,
        c > 0,
        q * d < n < q * d + d,
        q * f < m < q * f + f,
    ensures
        nearest(n, d * (2 * c)) == nearest(m, f * (2 * c)),
    decreases n - d * (2 * c),
{
    let step = 2 * c;
    let limit = SIGNIFICAND_LIMIT as nat * step;
    assert((n < SIGNIFICAND_LIMIT * (d * step)) == (q < limit)) by (nonlinear_arith)
        requires
            limit == SIGNIFICAND_LIMIT as nat * step,
            d > 0,
            q * d < n < q * d + d,
    ;
    assert((m < SIGNIFICAND_LIMIT * (f * step)) == (q < limit)) by (nonlinear_arith)
        requires
            limit == SIGNIFICAND_LIMIT as nat * step,
            f > 0,
            q * f < m < q * f + f,
    ;
    assert(d * step > 0 && f * step > 0) by (nonlinear_arith)
        requires
            d > 0,
            f > 0,
            step > 0,
    ;
    if q < limit {
        lemma_half_even_with_rest(n, d, q, c);
        lemma_half_even_with_rest(m, f, q, c);
    } else {
        assert(2 * (d * step) == d * (2 * step)) by (nonlinear_arith);
        assert(2 * (f * step) == f * (2 * step)) by (nonlinear_arith);
        lemma_nearest_with_rest(n, d, m, f, q, step);
    }
}

/// A quotient of at least a full significand that leaves a rest may be
/// replaced by its whole part and one half.
pub proof fn lemma_nearest_of_sticky(n: nat, d: nat, q: nat)
    requires
        d > 0,
        q >= SIGNIFICAND_LIMIT,
        q * d < n < q * d + d,
    ensures
        nearest(n, d) == nearest(2 * q + 1, 2),
{
    assert(n >= SIGNIFICAND_LIMIT * d) by (nonlinear_arith)
        requires
            q >= SIGNIFICAND_LIMIT,
            n > q * d,
    ;
    lemma_nearest_with_rest(n, d, 2 * q + 1, 2, q, 1);
    assert(d * (2 * 1) == 2 * d && 2 * (2 * 1) == 4nat) by (nonlinear_arith);
    assert(nearest(2 * q + 1, 2) == BINADE as nat + nearest(2 * q + 1, 4));
}

/// Leaving `t` binades at once.
proof fn lemma_nearest_skips_binades(n: nat, d: nat, t: nat)
    requires
        d > 0,
        n >= SIGNIFICAND_LIMIT * (d * pow2(t)),
    ensures
        nearest(n, d) == t * BINADE + nearest(n, d * pow2(t)),
    decreases t,
{
    if t == 0 {
        vstd::arithmetic::power2::lemma2_to64();
        assert(d * pow2(0) == d) by (nonlinear_arith)
            requires
                pow2(0) == 1,
        ;
    } else {
        let rest = (t - 1) as nat;
        lemma_pow2_unfold(t);
        lemma_pow2_pos(rest);
        assert((2 * d) * pow2(rest) == d * pow2(t)) by (nonlinear_arith)
            requires
                pow2(t) == 2 * pow2(rest),
        ;
        assert(d * pow2(t) >= d) by (nonlinear_arith)
            requires
                pow2(t) == 2 * pow2(rest),
                pow2(rest) >= 1,
        ;
        lemma_nearest_skips_binades(n, 2 * d, rest);
        assert(BINADE + rest * BINADE == t * BINADE) by (nonlinear_arith)
            requires
                t == rest + 1,
        ;
    }
}

/// The numerator of `significand` times two to the `exponent`.
pub open spec fn numerator(significand: nat, exponent: int) -> nat {
    if exponent > 0 {
        significand * pow2(exponent as nat)
    } else {
        significand
    }
}

/// The denominator of a significand times two to the `exponent`.
pub open spec fn denominator(exponent: int) -> nat {
    if exponent < 0 {
        pow2((-exponent) as nat)
    } else {
        1
    }
}

/// A power of two above and one below the line are one exponent.
pub proof fn lemma_nearest_of_scaled(significand: nat, above: nat, below: nat)
    ensures
        nearest(significand * pow2(above), pow2(below)) == nearest(
            numerator(significand, above - below),
            denominator(above - below),
        ),
{
    let exponent = above - below;
    let n = significand * pow2(above);
    let d = pow2(below);
    let m = numerator(significand, exponent);
    let c = denominator(exponent);
    lemma_pow2_pos(below);
    if exponent > 0 {
        let rest = exponent as nat;
        lemma_pow2_adds(rest, below);
        assert(n * 1 == (significand * pow2(rest)) * d) by (nonlinear_arith)
            requires
                n == significand * pow2(above),
                pow2(above) == pow2(rest) * d,
        ;
    } else if exponent < 0 {
        let rest = (-exponent) as nat;
        lemma_pow2_adds(above, rest);
        lemma_pow2_pos(rest);
        assert(n * pow2(rest) == significand * d) by (nonlinear_arith)
            requires
                n == significand * pow2(above),
                d == pow2(above) * pow2(rest),
        ;
    } else {
        assert(n * 1 == significand * d) by (nonlinear_arith)
            requires
                n == significand * d,
        ;
    }
    lemma_nearest_of_equal_quotients(n, d, m, c);
}

/// As `lemma_nearest_of_sticky`, for a quotient times a power of two.
pub proof fn lemma_nearest_of_scaled_sticky(n: nat, d: nat, q: nat, above: nat, below: nat)
    requires
        d > 0,
        q >= SIGNIFICAND_LIMIT,
        q * d < n < q * d + d,
    ensures
        nearest(n * pow2(above), d * pow2(below)) == nearest(
            numerator(2 * q + 1, above - below - 1),
            denominator(above - below - 1),
        ),
{
    let m = 2 * q + 1;
    lemma_pow2_pos(above);
    lemma_pow2_pos(below);
    if above >= below {
        let t = (above - below) as nat;
        lemma_pow2_pos(t);
        lemma_pow2_adds(t, below);
        lemma_mul_is_associative(n as int, pow2(t) as int, pow2(below) as int);
        lemma_nearest_scales(n * pow2(t), d, pow2(below));
        assert(n * pow2(t) >= SIGNIFICAND_LIMIT * (d * pow2(t))) by (nonlinear_arith)
            requires
                n > q * d,
                q >= SIGNIFICAND_LIMIT,
        ;
        lemma_nearest_skips_binades(n * pow2(t), d, t);
        lemma_nearest_scales(n, d, pow2(t));
        lemma_nearest_of_sticky(n, d, q);
        assert(m * pow2(t) >= SIGNIFICAND_LIMIT * (2 * pow2(t))) by (nonlinear_arith)
            requires
                m > 2 * q,
                q >= SIGNIFICAND_LIMIT,
        ;
        lemma_nearest_skips_binades(m * pow2(t), 2, t);
        lemma_nearest_scales(m, 2, pow2(t));
        lemma_nearest_of_scaled(m, t, 1);
        vstd::arithmetic::power2::lemma2_to64();
    } else {
        let t = (below - above) as nat;
        let c = pow2((t - 1) as nat);
        lemma_pow2_pos((t - 1) as nat);
        lemma_pow2_unfold(t);
        lemma_pow2_adds(t, above);
        lemma_mul_is_associative(d as int, pow2(t) as int, pow2(above) as int);
        assert(d * pow2(t) > 0) by (nonlinear_arith)
            requires
                d > 0,
                pow2(t) > 0,
        ;
        lemma_nearest_scales(n, d * pow2(t), pow2(above));
        lemma_nearest_with_rest(n, d, m, 2, q, c);
        lemma_pow2_unfold(t + 1);
    }
}

pub proof fn lemma_units_at_least(magnitude: nat)
    ensures
        units_of(magnitude) >= magnitude,
    decreases magnitude,
{
    if magnitude >= SIGNIFICAND_LIMIT {
        lemma_units_at_least((magnitude - BINADE) as nat);
    }
}

proof fn lemma_units_successor(magnitude: nat)
    ensures
        units_of(magnitude) < units_of(magnitude + 1),
    decreases magnitude,
{
    if magnitude + 1 == SIGNIFICAND_LIMIT {
        assert(units_of(BINADE as nat) == BINADE);
    } else if magnitude + 1 > SIGNIFICAND_LIMIT {
        lemma_units_successor((magnitude - BINADE) as nat);
    }
}

/// Magnitudes are ordered as the numbers they stand for.
pub proof fn lemma_units_increase(low: nat, high: nat)
    requires
        low < high,
    ensures
        units_of(low) < units_of(high),
    decreases high,
{
    let last = (high - 1) as nat;
    lemma_units_successor(last);
    if low < last {
        lemma_units_increase(low, last);
    }
}

/// A quotient on the grid rounds to itself.
pub proof fn lemma_nearest_exact(magnitude: nat, d: nat)
    requires
        d > 0,
    ensures
        nearest(units_of(magnitude) * d, d) == magnitude,
    decreases magnitude,
{
    let u = units_of(magnitude);
    if magnitude < SIGNIFICAND_LIMIT {
        assert(u * d < SIGNIFICAND_LIMIT * d) by (nonlinear_arith)
            requires
                u < SIGNIFICAND_LIMIT,
                d > 0,
        ;
        lemma_fundamental_div_mod_converse((u * d) as int, d as int, u as int, 0);
    } else {
        let below = (magnitude - BINADE) as nat;
        let v = units_of(below);
        lemma_units_at_least(below);
        assert(u * d >= SIGNIFICAND_LIMIT * d) by (nonlinear_arith)
            requires
                u >= SIGNIFICAND_LIMIT,
        ;
        assert(u * d == v * (2 * d)) by (nonlinear_arith)
            requires
                u == 2 * v,
        ;
        lemma_nearest_exact(below, 2 * d);
    }
}

proof fn lemma_nearest_at_least_binade(n: nat, d: nat)
    requires
        d > 0,
        n >= BINADE * d,
    ensures
        nearest(n, d) >= BINADE,
{
    if n < SIGNIFICAND_LIMIT * d {
        lemma_fundamental_div_mod(n as int, d as int);
        let q = n / d;
        let r = n % d;
        assert(q >= BINADE) by (nonlinear_arith)
            requires
                n == d * q + r,
                r < d,
                n >= BINADE * d,
        ;
    }
}

/// The distance of `k` grid steps of size `d` from `n`.
pub open spec fn distance(k: nat, d: nat, n: nat) -> nat {
    if k * d >= n {
        (k * d - n) as nat
    } else {
        (n - k * d) as nat
    }
}

proof fn lemma_half_even_is_nearest(n: nat, d: nat, j: nat)
    requires
        d > 0,
    ensures
        distance(half_even(n, d), d, n) <= distance(j, d, n),
        distance(half_even(n, d), d, n) == distance(j, d, n) && j != half_even(n, d)
            ==> half_even(n, d) % 2 == 0,
{
    let q = n / d;
    let r = n % d;
    lemma_fundamental_div_mod(n as int, d as int);
    assert(q * d == n - r) by (nonlinear_arith)
        requires
            n == d * q + r,
    ;
    assert((q + 1) * d == q * d + d) by (nonlinear_arith);
    if j < q {
        assert(j * d <= q * d - d) by (nonlinear_arith)
            requires
                j + 1 <= q,
        ;
    } else if j > q + 1 {
        assert(j * d >= (q + 1) * d + d) by (nonlinear_arith)
            requires
                j >= q + 2,
        ;
    }
}

/// Rounding gives a magnitude nearest to the exact quotient, and where another
/// one is as near, the one with the even significand.
pub proof fn law_nearest_is_nearest(n: nat, d: nat, other: nat)
    requires
        d > 0,
    ensures
        distance(units_of(nearest(n, d)), d, n) <= distance(units_of(other), d, n),
        distance(units_of(nearest(n, d)), d, n) == distance(units_of(other), d, n) && other
            != nearest(n, d) ==> nearest(n, d) % 2 == 0,
    decreases n - d,
{
    let limit = SIGNIFICAND_LIMIT as nat;
    let result = nearest(n, d);
    assert(units_of(limit) == limit) by {
        assert(units_of(BINADE as nat) == BINADE);
    }
    if n < limit * d {
        lemma_fundamental_div_mod(n as int, d as int);
        assert(n / d < limit) by (nonlinear_arith)
            requires
                n == d * (n / d) + n % d,
                n < limit * d,
        ;
        assert(units_of(result) == result);
        lemma_half_even_is_nearest(n, d, units_of(other));
        if other < result {
            lemma_units_increase(other, result);
        } else if other > result {
            lemma_units_increase(result, other);
        }
    } else {
        let coarse = nearest(n, 2 * d);
        lemma_nearest_at_least_binade(n, 2 * d);
        assert(units_of(result) == 2 * units_of(coarse));
        assert(units_of(coarse) * (2 * d) == units_of(result) * d) by (nonlinear_arith)
            requires
                units_of(result) == 2 * units_of(coarse),
        ;
        if other >= limit {
            let below = (other - BINADE) as nat;
            assert(units_of(below) * (2 * d) == units_of(other) * d) by (nonlinear_arith)
                requires
                    units_of(other) == 2 * units_of(below),
            ;
            law_nearest_is_nearest(n, 2 * d, below);
        } else {
            let below = BINADE as nat;
            assert(below * (2 * d) == limit * d) by (nonlinear_arith)
                requires
                    2 * below == limit,
            ;
            law_nearest_is_nearest(n, 2 * d, below);
            assert(other * d < limit * d) by (nonlinear_arith)
                requires
                    other < limit,
                    d > 0,
            ;
        }
    }
}

proof fn lemma_half_even_keeps_order(low: nat, high: nat, d: nat)
    requires
        d > 0,
        low <= high,
    ensures
        half_even(low, d) <= half_even(high, d),
{
    lemma_fundamental_div_mod(low as int, d as int);
    lemma_fundamental_div_mod(high as int, d as int);
    lemma_div_is_ordered(low as int, high as int, d as int);
}

/// A greater quotient is rounded to no lesser magnitude.
pub proof fn law_nearest_keeps_order(low: nat, high: nat, d: nat)
    requires
        d > 0,
        low <= high,
    ensures
        nearest(low, d) <= nearest(high, d),
    decreases high - d,
{
    let limit = SIGNIFICAND_LIMIT as nat;
    if high < limit * d {
        lemma_half_even_keeps_order(low, high, d);
    } else if low < limit * d {
        lemma_nearest_at_least_binade(high, 2 * d);
        lemma_fundamental_div_mod(low as int, d as int);
        assert(low / d < limit) by (nonlinear_arith)
            requires
                low == d * (low / d) + low % d,
                low < limit * d,
        ;
    } else {
        law_nearest_keeps_order(low, high, 2 * d);
    }
}

/// Rounding to a natural is off by half a step at most.
proof fn lemma_half_even_error(n: nat, d: nat)
    requires
        d > 0,
    ensures
        2 * distance(half_even(n, d), d, n) <= d,
{
    let q = n / d;
    let r = n % d;
    lemma_fundamental_div_mod(n as int, d as int);
    assert(q * d == n - r) by (nonlinear_arith)
        requires
            n == d * q + r,
    ;
    assert((q + 1) * d == n - r + d) by (nonlinear_arith)
        requires
            q * d == n - r,
    ;
}

/// From the least normal number on, rounding is off by one part in two to the
/// twenty-fourth at most.
proof fn lemma_relative_error(n: nat, d: nat)
    requires
        d > 0,
        n >= BINADE * d,
    ensures
        SIGNIFICAND_LIMIT * distance(units_of(nearest(n, d)), d, n) <= n,
    decreases n - d,
{
    let limit = SIGNIFICAND_LIMIT as nat;
    if n < limit * d {
        lemma_half_even_error(n, d);
        lemma_fundamental_div_mod(n as int, d as int);
        assert(n / d < limit) by (nonlinear_arith)
            requires
                n == d * (n / d) + n % d,
                n < limit * d,
        ;
        assert(units_of(limit) == limit) by {
            assert(units_of(BINADE as nat) == BINADE);
        }
    } else {
        let coarse = units_of(nearest(n, 2 * d));
        lemma_relative_error(n, 2 * d);
        lemma_nearest_at_least_binade(n, 2 * d);
        assert(coarse * (2 * d) == (2 * coarse) * d) by (nonlinear_arith);
    }
}

/// How far off rounding is: half a unit, and one part in two to the
/// twenty-fourth, at most.
pub proof fn law_rounding_error(n: nat, d: nat)
    requires
        d > 0,
    ensures
        SIGNIFICAND_LIMIT * (2 * distance(units_of(nearest(n, d)), d, n)) <= SIGNIFICAND_LIMIT * d
            + 2 * n,
        d == 1 ==> SIGNIFICAND_LIMIT * distance(units_of(nearest(n, d)), d, n) <= n,
{
    if n >= BINADE * d {
        lemma_relative_error(n, d);
    } else {
        lemma_half_even_error(n, d);
        lemma_fundamental_div_mod(n as int, d as int);
        assert(n / d < BINADE) by (nonlinear_arith)
            requires
                n == d * (n / d) + n % d,
                n < BINADE * d,
        ;
    }
}

/// Twice the point halfway between a magnitude and the next one, in units.
pub open spec fn doubled_midpoint(magnitude: nat) -> nat {
    units_of(magnitude) + units_of(magnitude + 1)
}

/// Whether the square root of `n` lies between the two midpoints around a
/// magnitude, so that no other magnitude is nearer to it.
pub open spec fn is_nearest_root(n: nat, magnitude: nat) -> bool {
    &&& magnitude > 0 ==> doubled_midpoint((magnitude - 1) as nat) * doubled_midpoint(
        (magnitude - 1) as nat,
    ) <= 4 * n
    &&& 4 * n < doubled_midpoint(magnitude) * doubled_midpoint(magnitude)
}

/// The magnitude nearest to the square root of `n`, counted in units.
pub open spec fn nearest_root(n: nat) -> nat {
    choose|magnitude: nat| is_nearest_root(n, magnitude)
}

/// No two magnitudes are nearest to one square root.
pub proof fn lemma_nearest_root_is_unique(n: nat, a: nat, b: nat)
    requires
        is_nearest_root(n, a),
        is_nearest_root(n, b),
    ensures
        a == b,
        nearest_root(n) == a,
{
    if a < b {
        lemma_midpoints_separate(n, a, b);
    }
    if b < a {
        lemma_midpoints_separate(n, b, a);
    }
    let c = nearest_root(n);
    if c < a {
        lemma_midpoints_separate(n, c, a);
    }
    if a < c {
        lemma_midpoints_separate(n, a, c);
    }
}

proof fn lemma_midpoints_separate(n: nat, low: nat, high: nat)
    requires
        low < high,
    ensures
        !(is_nearest_root(n, low) && is_nearest_root(n, high)),
{
    let last = (high - 1) as nat;
    if low < last {
        lemma_units_increase(low, last);
        lemma_units_increase(low + 1, last + 1);
    }
    let x = doubled_midpoint(low);
    let y = doubled_midpoint(last);
    assert(x * x <= y * y) by (nonlinear_arith)
        requires
            x <= y,
    ;
}

/// Below a bound whose midpoint lies above the root there is a nearest
/// magnitude.
proof fn lemma_nearest_root_below(n: nat, bound: nat) -> (magnitude: nat)
    requires
        4 * n < doubled_midpoint(bound) * doubled_midpoint(bound),
    ensures
        is_nearest_root(n, magnitude),
        magnitude <= bound,
    decreases bound,
{
    if bound > 0 && 4 * n < doubled_midpoint((bound - 1) as nat) * doubled_midpoint(
        (bound - 1) as nat,
    ) {
        lemma_nearest_root_below(n, (bound - 1) as nat)
    } else {
        bound
    }
}

/// Every root has a nearest magnitude, and a bound on the number bounds it.
pub proof fn law_nearest_root_is_nearest(n: nat, bound: nat)
    ensures
        is_nearest_root(n, nearest_root(n)),
        4 * n < doubled_midpoint(bound) * doubled_midpoint(bound) ==> nearest_root(n) <= bound,
{
    let wide = 4 * n + 1;
    let midpoint = doubled_midpoint(wide);
    lemma_units_at_least(wide);
    lemma_units_at_least(wide + 1);
    assert(4 * n < midpoint * midpoint) by (nonlinear_arith)
        requires
            midpoint > 4 * n,
            n >= 0,
    ;
    let magnitude = lemma_nearest_root_below(n, wide);
    lemma_nearest_root_is_unique(n, magnitude, magnitude);
    if 4 * n < doubled_midpoint(bound) * doubled_midpoint(bound) {
        let bounded = lemma_nearest_root_below(n, bound);
        lemma_nearest_root_is_unique(n, magnitude, bounded);
    }
}

/// The root of a greater number is no lesser magnitude.
pub proof fn law_nearest_root_keeps_order(low: nat, high: nat)
    requires
        low <= high,
    ensures
        nearest_root(low) <= nearest_root(high),
{
    law_nearest_root_is_nearest(low, 0);
    law_nearest_root_is_nearest(high, 0);
    let (a, b) = (nearest_root(low), nearest_root(high));
    if b < a {
        let last = (a - 1) as nat;
        if b < last {
            lemma_units_increase(b, last);
            lemma_units_increase(b + 1, last + 1);
        }
        let (x, y) = (doubled_midpoint(b), doubled_midpoint(last));
        assert(x * x <= y * y) by (nonlinear_arith)
            requires
                x <= y,
        ;
    }
}

/// A root whose square lies within half a step of a full significand.
pub proof fn lemma_nearest_root_in_binade(square: nat, significand: nat, e: nat)
    requires
        BINADE <= significand <= SIGNIFICAND_LIMIT,
        BINADE * BINADE <= square < SIGNIFICAND_LIMIT * SIGNIFICAND_LIMIT,
        significand * significand - significand < square,
        square <= significand * significand + significand,
    ensures
        is_nearest_root(square * (pow2(e) * pow2(e)), significand + e * BINADE as nat),
{
    let magnitude = significand + e * BINADE as nat;
    let scale = pow2(e);
    let n = square * (scale * scale);
    let previous = (magnitude - 1) as nat;
    lemma_pow2_pos(e);
    lemma_pow2_unfold(e + 1);
    lemma_units_in_binade(significand, e);
    assert(4 * square < (2 * significand + 1) * (2 * significand + 1)) by (nonlinear_arith)
        requires
            square <= significand * significand + significand,
    ;
    assert((2 * significand - 1) * (2 * significand - 1) <= 4 * square) by (nonlinear_arith)
        requires
            significand * significand - significand < square,
    ;
    // The upper midpoint.
    if significand < SIGNIFICAND_LIMIT {
        lemma_units_in_binade(significand + 1, e);
        assert(doubled_midpoint(magnitude) == (2 * significand + 1) * scale) by (nonlinear_arith)
            requires
                doubled_midpoint(magnitude) == significand * scale + (significand + 1) * scale,
        ;
    } else {
        lemma_units_in_binade(BINADE as nat + 1, e + 1);
        assert(magnitude + 1 == (BINADE as nat + 1) + (e + 1) * BINADE as nat) by (nonlinear_arith)
            requires
                magnitude == SIGNIFICAND_LIMIT as nat + e * BINADE as nat,
        ;
        assert(doubled_midpoint(magnitude) >= (2 * significand + 1) * scale) by (nonlinear_arith)
            requires
                doubled_midpoint(magnitude) == significand * scale + (BINADE as nat + 1) * (2
                    * scale),
                significand == SIGNIFICAND_LIMIT,
        ;
    }
    assert(4 * n < doubled_midpoint(magnitude) * doubled_midpoint(magnitude)) by {
        let x = (2 * significand + 1) as nat;
        let upper = doubled_midpoint(magnitude);
        assert(4 * n < (x * scale) * (x * scale)) by (nonlinear_arith)
            requires
                n == square * (scale * scale),
                4 * square < x * x,
                scale > 0,
        ;
        assert((x * scale) * (x * scale) <= upper * upper) by (nonlinear_arith)
            requires
                x * scale <= upper,
        ;
    }
    // The lower midpoint.
    let lower = doubled_midpoint(previous);
    if significand > BINADE || e == 0 {
        lemma_units_in_binade((significand - 1) as nat, e);
        let x = (2 * significand - 1) as nat;
        assert(lower == x * scale) by (nonlinear_arith)
            requires
                lower == (significand - 1) as nat * scale + significand * scale,
                x == 2 * significand - 1,
                significand >= 1,
        ;
        assert(lower * lower <= 4 * n) by (nonlinear_arith)
            requires
                lower == x * scale,
                x * x <= 4 * square,
                n == square * (scale * scale),
        ;
    } else {
        let below = (e - 1) as nat;
        lemma_pow2_unfold(e);
        lemma_units_in_binade((SIGNIFICAND_LIMIT - 1) as nat, below);
        assert(previous == (SIGNIFICAND_LIMIT - 1) as nat + below * BINADE as nat)
            by (nonlinear_arith)
            requires
                previous == BINADE as nat + e * BINADE as nat - 1,
                e == below + 1,
        ;
        let x = 2 * BINADE as nat;
        assert(lower <= x * scale) by (nonlinear_arith)
            requires
                lower == (SIGNIFICAND_LIMIT - 1) as nat * pow2(below) + BINADE as nat * scale,
                scale == 2 * pow2(below),
                x == 2 * BINADE as nat,
        ;
        assert(lower * lower <= (x * scale) * (x * scale)) by (nonlinear_arith)
            requires
                lower <= x * scale,
        ;
        assert((x * scale) * (x * scale) <= 4 * n) by (nonlinear_arith)
            requires
                n == square * (scale * scale),
                x * x <= 4 * square,
        ;
    }
}

} // verus!
