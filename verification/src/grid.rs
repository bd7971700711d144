//! Points on a grid: where coordinates are small multiples of one power of two,
//! it is told without rounding which part of a triangle is nearest, and the
//! distance that is measured is the least one.
use crate::binary32::{absolute, Binary32, ONE, ZERO};
use crate::directions::{
    dot_sizes, exact_dot, law_value_of_dot, lemma_product_size, lemma_sizes_add, lemma_times_three,
    lemma_within,
};
use crate::exact::Exact3;
use crate::nearest::{
    has_foot, law_foot_is_nearest, lemma_projections, lemma_ways, way_from, way_from_foot,
    within_triangle, ExactProjections,
};
use crate::rounding::{
    lemma_nearest_exact, lemma_units_at_least, nearest, saturated, units_of, INFINITE,
    SIGNIFICAND_LIMIT,
};
use crate::scatter::Three;
use crate::triangle::{nearest_offset, Feature, Projections, Triangle};
use crate::value::{
    large, law_value_of_product, law_value_of_quotient, law_value_of_sum, law_values_of_constants,
    lemma_one_in_units, lemma_real_product, lemma_small_multiple, near, one_in_units, part, size,
    unit, value,
};
use crate::vector::Vec3;
use vstd::arithmetic::power2::{
    lemma2_to64, lemma2_to64_rest, lemma_pow2_adds, lemma_pow2_pos, lemma_pow2_strictly_increases,
    pow2,
};
use vstd::prelude::*;

verus! {

/// Whether a number is a multiple of a power of two of units.
pub open spec fn on_grid(x: Binary32, m: int, e: nat) -> bool {
    x.is_finite() && x.units() == m * pow2(e)
}

/// Whether a point lies at a place of a grid.
pub open spec fn point_on_grid(v: Vec3, place: Exact3, e: nat) -> bool {
    on_grid(v.x, place.x, e) && on_grid(v.y, place.y, e) && on_grid(v.z, place.z, e)
}

/// Whether no coordinate of a place is greater than a bound.
pub open spec fn place_within(place: Exact3, bound: int) -> bool {
    -bound <= place.x <= bound && -bound <= place.y <= bound && -bound <= place.z <= bound
}

proof fn lemma_magnitude(negative: bool, magnitude: nat)
    requires
        magnitude <= INFINITE,
    ensures
        Binary32::spec_signed(negative, magnitude).negative() == negative,
        Binary32::spec_signed(negative, magnitude).magnitude() == magnitude,
{
}

/// A small multiple is kept when it is rounded.
proof fn lemma_kept(negative: bool, c: nat, e: nat, d: nat)
    requires
        c <= SIGNIFICAND_LIMIT,
        e <= 252,
        d > 0,
    ensures
        Binary32::rounded(negative, (c * pow2(e)) * d, d).is_finite(),
        Binary32::rounded(negative, (c * pow2(e)) * d, d).units() == if negative {
            -(c * pow2(e))
        } else {
            (c * pow2(e)) as int
        },
{
    let magnitude = lemma_small_multiple(c, e);
    lemma_nearest_exact(magnitude, d);
    assert(saturated(magnitude) == magnitude);
    lemma_magnitude(negative, magnitude);
}

proof fn lemma_absolute_multiple(m: int, p: nat)
    ensures
        absolute(m * p) == absolute(m) * p,
        p > 0 ==> (m * p < 0 <==> m < 0) && (m * p == 0 <==> m == 0),
{
    assert(absolute(m * p) == absolute(m) * p) by (nonlinear_arith);
    if p > 0 {
        assert((m * p < 0 <==> m < 0) && (m * p == 0 <==> m == 0)) by (nonlinear_arith)
            requires
                p > 0,
        ;
    }
}

/// A sum on a grid.
pub(crate) proof fn lemma_grid_sum(a: Binary32, b: Binary32, m: int, n: int, e: nat)
    requires
        on_grid(a, m, e),
        on_grid(b, n, e),
        -16777216 <= m + n <= 16777216,
        e <= 252,
    ensures
        on_grid(a.plus(b), m + n, e),
{
    reveal(Binary32::spec_plus);
    let (p, s) = (pow2(e), m + n);
    lemma_pow2_pos(e);
    assert(m * p + n * p == s * p) by (nonlinear_arith)
        requires
            s == m + n,
    ;
    lemma_absolute_multiple(s, p);
    lemma_kept(s < 0, absolute(s), e, 1);
    lemma_magnitude(a.negative() && b.negative(), 0);
    assert(units_of(0) == 0);
    assert((absolute(s) * p) * 1 == absolute(s) * p);
    assert(s < 0 ==> -(absolute(s) * p) == s * p) by (nonlinear_arith);
    assert(0 * p == 0);
}

proof fn lemma_grid_neg(a: Binary32, m: int, e: nat)
    requires
        on_grid(a, m, e),
    ensures
        on_grid(a.neg(), -m, e),
{
    let p = pow2(e);
    assert((-m) * p == -(m * p)) by (nonlinear_arith);
    if a.zero() {
        assert(units_of(0) == 0);
    }
}

/// A difference on a grid.
pub(crate) proof fn lemma_grid_difference(a: Binary32, b: Binary32, m: int, n: int, e: nat)
    requires
        on_grid(a, m, e),
        on_grid(b, n, e),
        -16777216 <= m - n <= 16777216,
        e <= 252,
    ensures
        on_grid(a.minus(b), m - n, e),
{
    reveal(Binary32::spec_minus);
    lemma_grid_neg(b, n, e);
    lemma_grid_sum(a, b.neg(), m, -n, e);
}

/// A product on a grid.
pub(crate) proof fn lemma_grid_product(a: Binary32, b: Binary32, m: int, n: int, e: nat, f: nat)
    requires
        on_grid(a, m, e),
        on_grid(b, n, e),
        -16777216 <= m * n <= 16777216,
        2 * e == f + 149,
        f <= 252,
    ensures
        on_grid(a.times(b), m * n, f),
{
    reveal(Binary32::spec_times);
    lemma_pow2_pos(e);
    lemma_pow2_pos(f);
    lemma_pow2_pos(149);
    lemma_pow2_adds(e, e);
    lemma_pow2_adds(f, 149);
    let (p, q, d) = (pow2(e), pow2(f), pow2(149));
    lemma_absolute_multiple(m, p);
    lemma_absolute_multiple(n, p);
    let (x, y) = (units_of(a.magnitude()), units_of(b.magnitude()));
    lemma_units_at_least(a.magnitude());
    lemma_units_at_least(b.magnitude());
    assert(x == absolute(m) * p && y == absolute(n) * p);
    let c = absolute(m * n);
    assert(c == absolute(m) * absolute(n)) by (nonlinear_arith)
        requires
            c == absolute(m * n),
    ;
    assert(x * y == (c * q) * d) by {
        let (i, j) = (absolute(m), absolute(n));
        assert((i * p) * (j * p) == (i * j) * (p * p)) by (nonlinear_arith);
        assert((c * q) * d == c * (q * d)) by (nonlinear_arith);
    }
    let negative = a.negative() != b.negative();
    lemma_kept(negative, c, f, d);
    let r = m * n;
    assert(a.negative() ==> m <= 0);
    assert(!a.negative() ==> m >= 0);
    assert(b.negative() ==> n <= 0);
    assert(!b.negative() ==> n >= 0);
    lemma_sign_of_product(m, n);
    if negative {
        assert(r <= 0);
        assert(-(c * q) == r * q) by (nonlinear_arith)
            requires
                c == -r,
        ;
    } else {
        assert(r >= 0);
        assert(c == r);
    }
}

proof fn lemma_sign_of_product(m: int, n: int)
    ensures
        (m <= 0 && n <= 0) || (m >= 0 && n >= 0) ==> m * n >= 0,
        (m <= 0 && n >= 0) || (m >= 0 && n <= 0) ==> m * n <= 0,
{
    if (m <= 0 && n <= 0) || (m >= 0 && n >= 0) {
        assert(m * n >= 0) by (nonlinear_arith)
            requires
                (m <= 0 && n <= 0) || (m >= 0 && n >= 0),
        ;
    }
    if (m <= 0 && n >= 0) || (m >= 0 && n <= 0) {
        assert(m * n <= 0) by (nonlinear_arith)
            requires
                (m <= 0 && n >= 0) || (m >= 0 && n <= 0),
        ;
    }
}

proof fn lemma_bounded_product(m: int, n: int, i: int, j: int)
    requires
        -i <= m <= i,
        -j <= n <= j,
    ensures
        -(i * j) <= m * n <= i * j,
{
    assert(-(i * j) <= m * n <= i * j) by (nonlinear_arith)
        requires
            -i <= m <= i,
            -j <= n <= j,
    ;
}

/// The way between two places of a grid.
proof fn lemma_grid_way(v: Vec3, w: Vec3, p: Exact3, q: Exact3, e: nat)
    requires
        point_on_grid(v, p, e),
        point_on_grid(w, q, e),
        place_within(p, 13),
        place_within(q, 13),
        e <= 252,
    ensures
        point_on_grid(v.minus(w), p.minus(q), e),
        place_within(p.minus(q), 26),
{
    lemma_grid_difference(v.x, w.x, p.x, q.x, e);
    lemma_grid_difference(v.y, w.y, p.y, q.y, e);
    lemma_grid_difference(v.z, w.z, p.z, q.z, e);
}

/// A product of ways on a grid.
proof fn lemma_grid_dot(v: Vec3, w: Vec3, p: Exact3, q: Exact3, e: nat, f: nat)
    requires
        point_on_grid(v, p, e),
        point_on_grid(w, q, e),
        place_within(p, 26),
        place_within(q, 26),
        2 * e == f + 149,
        f <= 252,
    ensures
        on_grid(v.dot(w), p.dot(q), f),
        -2028 <= p.dot(q) <= 2028,
{
    lemma_bounded_product(p.x, q.x, 26, 26);
    lemma_bounded_product(p.y, q.y, 26, 26);
    lemma_bounded_product(p.z, q.z, 26, 26);
    lemma_grid_product(v.x, w.x, p.x, q.x, e, f);
    lemma_grid_product(v.y, w.y, p.y, q.y, e, f);
    lemma_grid_product(v.z, w.z, p.z, q.z, e, f);
    let (x, y, z) = (v.x.times(w.x), v.y.times(w.y), v.z.times(w.z));
    lemma_grid_sum(x, y, p.x * q.x, p.y * q.y, f);
    lemma_grid_sum(x.plus(y), z, p.x * q.x + p.y * q.y, p.z * q.z, f);
}

/// Numbers on one grid are ordered as their multiples.
proof fn lemma_grid_order(a: Binary32, b: Binary32, m: int, n: int, e: nat)
    requires
        on_grid(a, m, e),
        on_grid(b, n, e),
    ensures
        a.le(b) <==> m <= n,
{
    reveal(Binary32::spec_le);
    lemma_pow2_pos(e);
    let p = pow2(e);
    assert(m * p <= n * p <==> m <= n) by (nonlinear_arith)
        requires
            p > 0,
    ;
}

pub(crate) proof fn lemma_grid_zero(e: nat)
    ensures
        on_grid(Binary32::of(ZERO), 0, e),
{
    assert(units_of(0) == 0);
    assert(0 * pow2(e) == 0);
}

/// The difference of two products of projections.
proof fn lemma_grid_weight(
    a: Binary32,
    b: Binary32,
    c: Binary32,
    d: Binary32,
    i: int,
    j: int,
    k: int,
    l: int,
    f: nat,
    h: nat,
)
    requires
        on_grid(a, i, f) && on_grid(b, j, f) && on_grid(c, k, f) && on_grid(d, l, f),
        -2028 <= i <= 2028 && -2028 <= j <= 2028 && -2028 <= k <= 2028 && -2028 <= l <= 2028,
        2 * f == h + 149,
        h <= 252,
    ensures
        on_grid(a.times(b).minus(c.times(d)), i * j - k * l, h),
        -8225568 <= i * j - k * l <= 8225568,
{
    lemma_bounded_product(i, j, 2028, 2028);
    lemma_bounded_product(k, l, 2028, 2028);
    lemma_grid_product(a, b, i, j, f, h);
    lemma_grid_product(c, d, k, l, f, h);
    lemma_grid_difference(a.times(b), c.times(d), i * j, k * l, h);
}

/// Whether a point and the corners of a triangle lie at places of a grid, none
/// of them far from the origin of it.
pub open spec fn triangle_on_grid(
    point: Vec3,
    t: Triangle,
    p: Exact3,
    a: Exact3,
    b: Exact3,
    c: Exact3,
    e: nat,
) -> bool {
    &&& point_on_grid(point, p, e) && place_within(p, 13)
    &&& point_on_grid(t.a, a, e) && place_within(a, 13)
    &&& point_on_grid(t.b, b, e) && place_within(b, 13)
    &&& point_on_grid(t.c, c, e) && place_within(c, 13)
    &&& 120 <= e <= 168
}

/// The exponent of the grid on which products of ways lie.
spec fn grid_of_products(e: nat) -> nat {
    (2 * e - 149) as nat
}

/// The exponent of the grid on which weights of corners lie.
spec fn grid_of_weights(e: nat) -> nat {
    (4 * e - 447) as nat
}

/// Whether rounded projections are exact.
spec fn exact_on_grid(r: Projections, x: ExactProjections, e: nat) -> bool {
    let (f, h) = (grid_of_products(e), grid_of_weights(e));
    &&& on_grid(r.d1, x.d1, f) && on_grid(r.d2, x.d2, f) && on_grid(r.d3, x.d3, f)
    &&& on_grid(r.d4, x.d4, f) && on_grid(r.d5, x.d5, f) && on_grid(r.d6, x.d6, f)
    &&& on_grid(r.va(), x.va(), h) && on_grid(r.vb(), x.vb(), h) && on_grid(r.vc(), x.vc(), h)
    &&& -2028 <= x.d1 <= 2028 && -2028 <= x.d2 <= 2028 && -2028 <= x.d3 <= 2028
    &&& -2028 <= x.d4 <= 2028 && -2028 <= x.d5 <= 2028 && -2028 <= x.d6 <= 2028
    &&& -8225568 <= x.va() <= 8225568
    &&& -8225568 <= x.vb() <= 8225568
    &&& -8225568 <= x.vc() <= 8225568
}

proof fn lemma_projections_on_grid(
    point: Vec3,
    t: Triangle,
    p: Exact3,
    a: Exact3,
    b: Exact3,
    c: Exact3,
    e: nat,
)
    requires
        triangle_on_grid(point, t, p, a, b, c, e),
    ensures
        exact_on_grid(Projections::of(point, t), ExactProjections::of(p, a, b, c), e),
{
    let (f, h) = (grid_of_products(e), grid_of_weights(e));
    let (ab, ac) = (t.b.minus(t.a), t.c.minus(t.a));
    let (i, j) = (b.minus(a), c.minus(a));
    lemma_grid_way(t.b, t.a, b, a, e);
    lemma_grid_way(t.c, t.a, c, a, e);
    lemma_grid_way(point, t.a, p, a, e);
    lemma_grid_way(point, t.b, p, b, e);
    lemma_grid_way(point, t.c, p, c, e);
    lemma_grid_dot(ab, point.minus(t.a), i, p.minus(a), e, f);
    lemma_grid_dot(ac, point.minus(t.a), j, p.minus(a), e, f);
    lemma_grid_dot(ab, point.minus(t.b), i, p.minus(b), e, f);
    lemma_grid_dot(ac, point.minus(t.b), j, p.minus(b), e, f);
    lemma_grid_dot(ab, point.minus(t.c), i, p.minus(c), e, f);
    lemma_grid_dot(ac, point.minus(t.c), j, p.minus(c), e, f);
    let r = Projections::of(point, t);
    let x = ExactProjections::of(p, a, b, c);
    lemma_grid_weight(r.d1, r.d4, r.d3, r.d2, x.d1, x.d4, x.d3, x.d2, f, h);
    lemma_grid_weight(r.d5, r.d2, r.d1, r.d6, x.d5, x.d2, x.d1, x.d6, f, h);
    lemma_grid_weight(r.d3, r.d6, r.d5, r.d4, x.d3, x.d6, x.d5, x.d4, f, h);
}

/// On a grid the nearest feature is told without rounding.
pub proof fn law_nearest_feature_is_exact_on_a_grid(
    point: Vec3,
    t: Triangle,
    p: Exact3,
    a: Exact3,
    b: Exact3,
    c: Exact3,
    e: nat,
)
    requires
        triangle_on_grid(point, t, p, a, b, c, e),
    ensures
        Projections::of(point, t).feature() == ExactProjections::of(p, a, b, c).feature(),
{
    lemma_projections_on_grid(point, t, p, a, b, c, e);
    let (f, h) = (grid_of_products(e), grid_of_weights(e));
    let r = Projections::of(point, t);
    let x = ExactProjections::of(p, a, b, c);
    let zero = Binary32::of(ZERO);
    lemma_grid_zero(f);
    lemma_grid_zero(h);
    lemma_grid_order(r.d1, zero, x.d1, 0, f);
    lemma_grid_order(zero, r.d1, 0, x.d1, f);
    lemma_grid_order(r.d2, zero, x.d2, 0, f);
    lemma_grid_order(zero, r.d2, 0, x.d2, f);
    lemma_grid_order(zero, r.d3, 0, x.d3, f);
    lemma_grid_order(r.d3, zero, x.d3, 0, f);
    lemma_grid_order(r.d4, r.d3, x.d4, x.d3, f);
    lemma_grid_order(zero, r.d6, 0, x.d6, f);
    lemma_grid_order(r.d6, zero, x.d6, 0, f);
    lemma_grid_order(r.d5, r.d6, x.d5, x.d6, f);
    lemma_grid_order(r.vc(), zero, x.vc(), 0, h);
    lemma_grid_order(r.vb(), zero, x.vb(), 0, h);
    lemma_grid_order(r.va(), zero, x.va(), 0, h);
    lemma_grid_difference(r.d4, r.d3, x.d4, x.d3, f);
    lemma_grid_difference(r.d5, r.d6, x.d5, x.d6, f);
    lemma_grid_order(zero, r.d4.minus(r.d3), 0, x.d4 - x.d3, f);
    lemma_grid_order(zero, r.d5.minus(r.d6), 0, x.d5 - x.d6, f);
}

/// The value of a step of a grid.
pub open spec fn grid_step(e: nat) -> real {
    (pow2(e) as real) * unit()
}

/// The value of a number on a grid.
pub(crate) proof fn lemma_grid_value(x: Binary32, m: int, e: nat)
    requires
        on_grid(x, m, e),
    ensures
        value(x) == (m as real) * grid_step(e),
{
    let (p, u) = (pow2(e), unit());
    assert((m * p) as real == (m as real) * (p as real)) by (nonlinear_arith);
    let (i, j) = (m as real, p as real);
    assert((i * j) * u == i * (j * u)) by (nonlinear_arith);
}

/// A step of a grid is neither very small nor very great.
proof fn lemma_grid_step(e: nat)
    requires
        33 <= e <= 225,
    ensures
        grid_step(e) > 0real,
        e >= 120 ==> grid_step(e) >= 1real / 1073741824real,
        e <= 168 ==> grid_step(e) <= 524288real,
        grid_step(e) >= 1real / 83076749736557242056487941267521536real,
        grid_step(e) <= 75557863725914323419136real,
{
    lemma_one_in_units();
    lemma2_to64();
    lemma2_to64_rest();
    lemma_grid_power(e, 33, 225);
    lemma_pow2_adds(52, 64);
    lemma_pow2_adds(33, 116);
    lemma_pow2_adds(12, 64);
    lemma_pow2_adds(149, 76);
    if e >= 120 {
        lemma_grid_power(e, 120, 225);
        lemma_pow2_adds(120, 29);
    }
    if e <= 168 {
        lemma_grid_power(e, 33, 168);
        lemma_pow2_adds(149, 19);
    }
    let (p, u) = (pow2(e) as real, unit());
    let (low, high) = (pow2(33) as real, pow2(225) as real);
    let one = one_in_units();
    assert(pow2(116) == 83076749736557242056487941267521536);
    assert(one == low * 83076749736557242056487941267521536real);
    assert(high == one * 75557863725914323419136real);
    assert(p * u >= 1real / 83076749736557242056487941267521536real) by (nonlinear_arith)
        requires
            p >= low,
            one == low * 83076749736557242056487941267521536real,
            one * u == 1real,
            u > 0real,
    ;
    assert(p * u <= 75557863725914323419136real) by (nonlinear_arith)
        requires
            p <= one * 75557863725914323419136real,
            one * u == 1real,
            u > 0real,
    ;
    if e >= 120 {
        assert(p * 536870912real >= one);
        assert(p * u >= 1real / 1073741824real) by (nonlinear_arith)
            requires
                p * 536870912real >= one,
                one * u == 1real,
                u > 0real,
        ;
    }
    if e <= 168 {
        assert(p * u <= 524288real) by (nonlinear_arith)
            requires
                p <= one * 524288real,
                one * u == 1real,
                u > 0real,
        ;
    }
}

proof fn lemma_grid_power(e: nat, low: nat, high: nat)
    requires
        low <= e <= high,
    ensures
        pow2(low) <= pow2(e) <= pow2(high),
{
    if low < e {
        lemma_pow2_strictly_increases(low, e);
    }
    if e < high {
        lemma_pow2_strictly_increases(e, high);
    }
}

proof fn lemma_fraction(i: int, j: int)
    requires
        0 <= i <= j,
        0 < j,
    ensures
        0real <= (i as real) / (j as real) <= 1real,
        (j as real) * ((i as real) / (j as real)) == i as real,
{
    let (x, y) = (i as real, j as real);
    let f = x / y;
    assert(y * f == x) by (nonlinear_arith)
        requires
            f == x / y,
            y > 0real,
    ;
    assert(0real <= f <= 1real) by (nonlinear_arith)
        requires
            y * f == x,
            0real <= x <= y,
            y > 0real,
    ;
}

/// The quotient of two numbers on one grid.
proof fn lemma_ratio(a: Binary32, b: Binary32, i: int, j: int, g: nat)
    requires
        on_grid(a, i, g),
        on_grid(b, j, g),
        0 <= i <= j,
        0 < j,
        33 <= g <= 225,
    ensures
        near(a.over(b), (i as real) / (j as real), 2real * part(1real)),
        0real <= (i as real) / (j as real) <= 1real,
{
    lemma_one_in_units();
    lemma_grid_value(a, i, g);
    lemma_grid_value(b, j, g);
    lemma_grid_step(g);
    lemma_fraction(i, j);
    let (x, y, s) = (i as real, j as real, grid_step(g));
    let f = x / y;
    assert(y * s > 0real) by (nonlinear_arith)
        requires
            y > 0real,
            s > 0real,
    ;
    assert((x * s) / (y * s) == f) by (nonlinear_arith)
        requires
            y * f == x,
            y * s > 0real,
    ;
    law_value_of_quotient(a, b);
}

/// The share of a corner inside a triangle.
#[verifier::rlimit(50)]
proof fn lemma_inside_share(weight: Binary32, sum: Binary32, i: int, n: int, g: nat)
    requires
        on_grid(weight, i, g),
        on_grid(sum, n, g),
        0 <= i <= n,
        0 < n,
        i <= 8225568,
        33 <= g <= 225,
    ensures
        near(
            weight.times(Binary32::of(ONE).over(sum)),
            (i as real) / (n as real),
            4real * part(1real),
        ),
        0real <= (i as real) / (n as real) <= 1real,
{
    lemma_one_in_units();
    law_values_of_constants();
    lemma_grid_value(weight, i, g);
    lemma_grid_value(sum, n, g);
    lemma_grid_step(g);
    lemma_fraction(i, n);
    let (x, y, s) = (i as real, n as real, grid_step(g));
    let d = y * s;
    assert(d >= s) by (nonlinear_arith)
        requires
            d == y * s,
            y >= 1real,
            s > 0real,
    ;
    let t = 1real / d;
    assert(d * t == 1real && t > 0real) by (nonlinear_arith)
        requires
            t == 1real / d,
            d > 0real,
    ;
    assert(t <= 83076749736557242056487941267521536real) by (nonlinear_arith)
        requires
            d * t == 1real,
            d >= 1real / 83076749736557242056487941267521536real,
            t > 0real,
    ;
    law_value_of_quotient(Binary32::of(ONE), sum);
    let share = Binary32::of(ONE).over(sum);
    let (p, q, f) = (x * s, value(share), x / y);
    lemma_share_product(x, y, s, t, f);
    assert(p * t == f);
    let off = q - t;
    assert(size(off) <= part(t) + unit() / 2real);
    assert(0real <= p <= 8225568real * 75557863725914323419136real) by (nonlinear_arith)
        requires
            p == x * s,
            0real <= x <= 8225568real,
            0real < s <= 75557863725914323419136real,
    ;
    lemma_product_size(p, off, p, part(t) + unit() / 2real);
    assert(p * (part(t) + unit() / 2real) == part(p * t) + p * unit() / 2real)
        by (nonlinear_arith);
    let u = unit();
    assert(p * u / 2real <= part(1real) / 1000real) by (nonlinear_arith)
        requires
            0real <= p <= 8225568real * 75557863725914323419136real,
            0real < u < 1real / 1000000000000000000000000000000000000000000real,
    ;
    assert(p * q == p * t + p * off) by (nonlinear_arith)
        requires
            off == q - t,
    ;
    law_value_of_product(weight, share);
}

proof fn lemma_share_product(x: real, y: real, s: real, t: real, f: real)
    requires
        (y * s) * t == 1real,
        y * f == x,
        y > 0real,
    ensures
        (x * s) * t == f,
{
    assert((x * s) * t == f) by (nonlinear_arith)
        requires
            (y * s) * t == 1real,
            y * f == x,
    ;
}

/// A way on a grid, times a share.
#[verifier::rlimit(50)]
proof fn lemma_share_of_way(way: Binary32, share: Binary32, k: int, f: real, e: nat)
    requires
        on_grid(way, k, e),
        -26 <= k <= 26,
        120 <= e <= 168,
        0real <= f <= 1real,
        near(share, f, 4real * part(1real)),
    ensures
        near(
            way.times(share),
            ((k as real) * f) * grid_step(e),
            132real * part(grid_step(e)),
        ),
        size(((k as real) * f) * grid_step(e)) <= 26real * grid_step(e),
{
    lemma_one_in_units();
    lemma_grid_value(way, k, e);
    lemma_grid_step(e);
    let (x, s) = (k as real, grid_step(e));
    let (w, q) = (x * s, value(share));
    lemma_product_size(x, s, 26real, s);
    let off = q - f;
    lemma_product_size(w, off, 26real * s, 4real * part(1real));
    assert((26real * s) * (4real * part(1real)) == 104real * part(s)) by (nonlinear_arith);
    lemma_product_size(w, f, 26real * s, 1real);
    assert((26real * s) * 1real == 26real * s);
    assert(w * q == w * f + w * off) by (nonlinear_arith)
        requires
            off == q - f,
    ;
    assert(w * f == (x * f) * s) by (nonlinear_arith)
        requires
            w == x * s,
    ;
    lemma_sizes_add(w * f, w * off);
    law_value_of_product(way, share);
    let z = value(way.times(share));
    lemma_sizes_add(z - w * q, w * off);
}

/// A coordinate of the way from an edge.
#[verifier::rlimit(50)]
proof fn lemma_edge_coordinate(
    from: Binary32,
    way: Binary32,
    share: Binary32,
    m: int,
    k: int,
    f: real,
    e: nat,
)
    requires
        on_grid(from, m, e),
        on_grid(way, k, e),
        -26 <= m <= 26,
        -26 <= k <= 26,
        120 <= e <= 168,
        0real <= f <= 1real,
        near(share, f, 4real * part(1real)),
    ensures
        near(
            from.minus(way.times(share)),
            ((m as real) - (k as real) * f) * grid_step(e),
            512real * part(grid_step(e)),
        ),
        size((m as real) - (k as real) * f) <= 80real,
{
    lemma_grid_value(from, m, e);
    lemma_grid_step(e);
    lemma_share_of_way(way, share, k, f, e);
    let (x, y, s) = (m as real, (k as real) * f, grid_step(e));
    lemma_product_size(x, s, 26real, s);
    lemma_product_size(k as real, f, 26real, 1real);
    let (a, b) = (value(from), value(way.times(share)));
    lemma_within(y * s, b, 26real * s, 132real * part(s));
    lemma_sizes_add(a, b);
    law_value_of_sum(from, way.times(share));
    let z = value(from.minus(way.times(share)));
    assert((x - y) * s == x * s - y * s) by (nonlinear_arith);
    lemma_sizes_add(z - (a - b), b - y * s);
}

/// A rounded sum or difference of numbers that are off themselves.
#[verifier::rlimit(50)]
pub(crate) proof fn lemma_rounded_sum(
    a: Binary32,
    b: Binary32,
    x: real,
    y: real,
    off: real,
    other: real,
    most: real,
)
    requires
        near(a, x, off),
        near(b, y, other),
        size(x) + size(y) + off + other <= most <= large(),
    ensures
        near(a.plus(b), x + y, off + other + part(most)),
        near(a.minus(b), x - y, off + other + part(most)),
{
    let (p, q) = (value(a), value(b));
    lemma_within(x, p, size(x), off);
    lemma_within(y, q, size(y), other);
    lemma_sizes_add(p, q);
    law_value_of_sum(a, b);
    lemma_sizes_add(p - x, q - y);
    lemma_sizes_add(value(a.plus(b)) - (p + q), (p - x) + (q - y));
    lemma_sizes_add(value(a.minus(b)) - (p - q), (p - x) - (q - y));
}

/// A coordinate of the way to the foot inside a triangle.
#[verifier::rlimit(50)]
proof fn lemma_inside_coordinate(
    corner: Binary32,
    ab: Binary32,
    ac: Binary32,
    point: Binary32,
    v: Binary32,
    w: Binary32,
    i: int,
    j: int,
    k: int,
    l: int,
    f: real,
    g: real,
    e: nat,
)
    requires
        on_grid(corner, i, e) && on_grid(ab, j, e) && on_grid(ac, k, e) && on_grid(point, l, e),
        -13 <= i <= 13 && -26 <= j <= 26 && -26 <= k <= 26 && -13 <= l <= 13,
        120 <= e <= 168,
        0real <= f <= 1real,
        0real <= g <= 1real,
        near(v, f, 4real * part(1real)),
        near(w, g, 4real * part(1real)),
    ensures
        near(
            corner.plus(ab.times(v)).plus(ac.times(w)).minus(point),
            ((i as real) + (j as real) * f + (k as real) * g - (l as real)) * grid_step(e),
            512real * part(grid_step(e)),
        ),
        size((i as real) + (j as real) * f + (k as real) * g - (l as real)) <= 80real,
{
    lemma_grid_value(corner, i, e);
    lemma_grid_value(point, l, e);
    lemma_grid_step(e);
    lemma_share_of_way(ab, v, j, f, e);
    lemma_share_of_way(ac, w, k, g, e);
    let s = grid_step(e);
    let p = part(s);
    let (x, y, z, o) = (i as real, (j as real) * f, (k as real) * g, l as real);
    lemma_product_size(j as real, f, 26real, 1real);
    lemma_product_size(k as real, g, 26real, 1real);
    lemma_product_size(x, s, 13real, s);
    lemma_product_size(o, s, 13real, s);
    let (xs, ys, zs, os) = (x * s, y * s, z * s, o * s);
    let one = corner.plus(ab.times(v));
    let two = one.plus(ac.times(w));
    lemma_rounded_sum(corner, ab.times(v), xs, ys, 0real, 132real * p, 40real * s);
    lemma_sizes_add(xs, ys);
    lemma_rounded_sum(one, ac.times(w), xs + ys, zs, 172real * p, 132real * p, 66real * s);
    lemma_sizes_add(xs + ys, zs);
    lemma_rounded_sum(two, point, xs + ys + zs, os, 370real * p, 0real, 80real * s);
    assert((x + y + z - o) * s == xs + ys + zs - os) by (nonlinear_arith)
        requires
            xs == x * s,
            ys == y * s,
            zs == z * s,
            os == o * s,
    ;
}

/// A weighted way as a real number.
proof fn lemma_edge_way(n: int, m: int, k: int, i: int, f: real)
    requires
        (n as real) * f == i as real,
    ensures
        (n as real) * ((m as real) - (k as real) * f) == (m * n - k * i) as real,
{
    let (nr, mr, kr, ir) = (n as real, m as real, k as real, i as real);
    lemma_real_product(m, n);
    lemma_real_product(k, i);
    assert(nr * (mr - kr * f) == mr * nr - kr * ir) by (nonlinear_arith)
        requires
            nr * f == ir,
    ;
}

proof fn lemma_inside_way(n: int, i: int, j: int, k: int, l: int, y: int, z: int, f: real, g: real)
    requires
        (n as real) * f == y as real,
        (n as real) * g == z as real,
    ensures
        (n as real) * ((i as real) + (j as real) * f + (k as real) * g - (l as real)) == -(((l - i)
            * n - j * y - k * z) as real),
{
    lemma_edge_way(n, i - l, -j, y, f);
    lemma_edge_way(n, 0, -k, z, g);
    let nr = n as real;
    let (x, u, v) = ((i - l) as real, (j as real) * f, (k as real) * g);
    assert((-j) as real == -(j as real) && (-k) as real == -(k as real));
    assert((-(j as real)) * f == -u) by (nonlinear_arith)
        requires
            u == (j as real) * f,
    ;
    assert((-(k as real)) * g == -v) by (nonlinear_arith)
        requires
            v == (k as real) * g,
    ;
    assert(nr * (x + u) + nr * v == nr * (x + u + v)) by (nonlinear_arith);
    assert((l - i) * n - j * y - k * z == -((i - l) * n - (-j) * y) - (0 * n - (-k) * z))
        by (nonlinear_arith);
}

/// Whether a rounded coordinate is that of a way on a grid, in one direction or
/// the other, divided by a number.
spec fn follows(x: Binary32, r: real, way: int, n: int, e: nat) -> bool {
    &&& near(x, r * grid_step(e), 512real * part(grid_step(e)))
    &&& size(r) <= 80real
    &&& (n as real) * r == way as real || (n as real) * r == -(way as real)
}

proof fn lemma_follows_exactly(x: Binary32, way: int, e: nat)
    requires
        on_grid(x, way, e),
        -26 <= way <= 26,
        120 <= e <= 168,
    ensures
        follows(x, way as real, way, 1, e),
{
    lemma_grid_value(x, way, e);
    lemma_grid_step(e);
    assert((1int as real) * (way as real) == way as real) by (nonlinear_arith);
}

proof fn lemma_follows_edge(
    from: Binary32,
    edge: Binary32,
    share: Binary32,
    m: int,
    k: int,
    i: int,
    n: int,
    e: nat,
)
    requires
        on_grid(from, m, e),
        on_grid(edge, k, e),
        -26 <= m <= 26,
        -26 <= k <= 26,
        120 <= e <= 168,
        0 <= i <= n,
        0 < n,
        near(share, (i as real) / (n as real), 2real * part(1real)),
    ensures
        follows(
            from.minus(edge.times(share)),
            (m as real) - (k as real) * ((i as real) / (n as real)),
            m * n - k * i,
            n,
            e,
        ),
{
    lemma_fraction(i, n);
    lemma_edge_coordinate(from, edge, share, m, k, (i as real) / (n as real), e);
    lemma_edge_way(n, m, k, i, (i as real) / (n as real));
}

/// The way from an edge.
proof fn lemma_edge_offset(
    from: Vec3,
    edge: Vec3,
    share: Binary32,
    m: Exact3,
    k: Exact3,
    i: int,
    n: int,
    e: nat,
) -> (r: Three)
    requires
        point_on_grid(from, m, e),
        point_on_grid(edge, k, e),
        place_within(m, 26),
        place_within(k, 26),
        120 <= e <= 168,
        0 <= i <= n,
        0 < n,
        near(share, (i as real) / (n as real), 2real * part(1real)),
    ensures
        ({
            let off = from.minus(edge.scaled(share));
            &&& follows(off.x, r.x, m.x * n - k.x * i, n, e)
            &&& follows(off.y, r.y, m.y * n - k.y * i, n, e)
            &&& follows(off.z, r.z, m.z * n - k.z * i, n, e)
        }),
{
    lemma_follows_edge(from.x, edge.x, share, m.x, k.x, i, n, e);
    lemma_follows_edge(from.y, edge.y, share, m.y, k.y, i, n, e);
    lemma_follows_edge(from.z, edge.z, share, m.z, k.z, i, n, e);
    let f = (i as real) / (n as real);
    Three {
        x: (m.x as real) - (k.x as real) * f,
        y: (m.y as real) - (k.y as real) * f,
        z: (m.z as real) - (k.z as real) * f,
    }
}

/// Whether a rounded way is one on a grid, in one direction or the other, divided
/// by a number.
spec fn follows_way(off: Vec3, r: Three, way: Exact3, n: int, e: nat) -> bool {
    &&& follows(off.x, r.x, way.x, n, e)
    &&& follows(off.y, r.y, way.y, n, e)
    &&& follows(off.z, r.z, way.z, n, e)
}

/// The way from a foot with given weights, seen from a corner.
proof fn lemma_way_seen(p: Exact3, a: Exact3, b: Exact3, c: Exact3, u: int, v: int, w: int)
    ensures
        ({
            let way = way_from(p, a, b, c, u, v, w);
            let n = u + v + w;
            let (ap, ab, ac) = (p.minus(a), b.minus(a), c.minus(a));
            &&& way.x == ap.x * n - ab.x * v - ac.x * w
            &&& way.y == ap.y * n - ab.y * v - ac.y * w
            &&& way.z == ap.z * n - ab.z * v - ac.z * w
            &&& u == 0 ==> {
                let (bp, bc) = (p.minus(b), c.minus(b));
                &&& way.x == bp.x * n - bc.x * w
                &&& way.y == bp.y * n - bc.y * w
                &&& way.z == bp.z * n - bc.z * w
            }
        }),
{
    lemma_ways(p.x, a.x, b.x, c.x, u, v, w);
    lemma_ways(p.y, a.y, b.y, c.y, u, v, w);
    lemma_ways(p.z, a.z, b.z, c.z, u, v, w);
    lemma_ways(p.x, b.x, a.x, c.x, v, u, w);
    lemma_ways(p.y, b.y, a.y, c.y, v, u, w);
    lemma_ways(p.z, b.z, a.z, c.z, v, u, w);
    if u == 0 {
        assert((a.x - b.x) * 0 == 0 && (a.y - b.y) * 0 == 0 && (a.z - b.z) * 0 == 0);
        assert(a.x * 0 == 0 && a.y * 0 == 0 && a.z * 0 == 0);
    }
}

/// The way to a foot inside a triangle.
#[verifier::rlimit(50)]
proof fn lemma_inside_offset(
    point: Vec3,
    t: Triangle,
    p: Exact3,
    a: Exact3,
    b: Exact3,
    c: Exact3,
    e: nat,
) -> (r: Three)
    requires
        triangle_on_grid(point, t, p, a, b, c, e),
        has_foot(p, a, b, c),
        ExactProjections::of(p, a, b, c).feature() is Inside,
    ensures
        follows_way(
            nearest_offset(point, t),
            r,
            way_from_foot(p, a, b, c),
            ExactProjections::of(p, a, b, c).divisor(),
            e,
        ),
{
    let x = ExactProjections::of(p, a, b, c);
    let h = grid_of_weights(e);
    lemma_projections_on_grid(point, t, p, a, b, c, e);
    law_nearest_feature_is_exact_on_a_grid(point, t, p, a, b, c, e);
    law_foot_is_nearest(p, a, b, c, 1, 0, 0);
    let q = Projections::of(point, t);
    let (u, v, w) = x.weights();
    let n = x.divisor();
    let (i, j) = (b.minus(a), c.minus(a));
    lemma_grid_way(t.b, t.a, b, a, e);
    lemma_grid_way(t.c, t.a, c, a, e);
    lemma_projections(p, a, b, c);
    let f = grid_of_products(e);
    let (ab, ac) = (t.b.minus(t.a), t.c.minus(t.a));
    lemma_grid_dot(ab, ab, i, i, e, f);
    lemma_grid_dot(ab, ac, i, j, e, f);
    lemma_grid_dot(ac, ac, j, j, e, f);
    lemma_bounded_product(i.dot(i), j.dot(j), 2028, 2028);
    lemma_bounded_product(i.dot(j), i.dot(j), 2028, 2028);
    lemma_grid_sum(q.va(), q.vb(), u, v, h);
    lemma_grid_sum(q.va().plus(q.vb()), q.vc(), u + v, w, h);
    let sum = q.va().plus(q.vb()).plus(q.vc());
    lemma_inside_share(q.vb(), sum, v, n, h);
    lemma_inside_share(q.vc(), sum, w, n, h);
    lemma_fraction(v, n);
    lemma_fraction(w, n);
    let share = Binary32::of(ONE).over(sum);
    let (y, z) = (q.vb().times(share), q.vc().times(share));
    let (k, l) = ((v as real) / (n as real), (w as real) / (n as real));
    lemma_inside_coordinate(t.a.x, ab.x, ac.x, point.x, y, z, a.x, i.x, j.x, p.x, k, l, e);
    lemma_inside_coordinate(t.a.y, ab.y, ac.y, point.y, y, z, a.y, i.y, j.y, p.y, k, l, e);
    lemma_inside_coordinate(t.a.z, ab.z, ac.z, point.z, y, z, a.z, i.z, j.z, p.z, k, l, e);
    lemma_inside_way(n, a.x, i.x, j.x, p.x, v, w, k, l);
    lemma_inside_way(n, a.y, i.y, j.y, p.y, v, w, k, l);
    lemma_inside_way(n, a.z, i.z, j.z, p.z, v, w, k, l);
    lemma_way_seen(p, a, b, c, u, v, w);
    Three {
        x: (a.x as real) + (i.x as real) * k + (j.x as real) * l - (p.x as real),
        y: (a.y as real) + (i.y as real) * k + (j.y as real) * l - (p.y as real),
        z: (a.z as real) + (i.z as real) * k + (j.z as real) * l - (p.z as real),
    }
}

proof fn lemma_no_share(k: Exact3)
    ensures
        k.x * 0 == 0 && k.y * 0 == 0 && k.z * 0 == 0,
{
    assert(k.x * 0 == 0 && k.y * 0 == 0 && k.z * 0 == 0) by (nonlinear_arith);
}

/// The ways from the corners.
proof fn lemma_corner_ways(p: Exact3, a: Exact3, b: Exact3, c: Exact3)
    ensures
        way_from(p, a, b, c, 1, 0, 0) == p.minus(a),
        way_from(p, a, b, c, 0, 1, 0) == p.minus(b),
        way_from(p, a, b, c, 0, 0, 1) == p.minus(c),
{
}

/// The way from the nearest corner of a triangle.
proof fn lemma_nearest_corner(
    point: Vec3,
    t: Triangle,
    p: Exact3,
    a: Exact3,
    b: Exact3,
    c: Exact3,
    e: nat,
) -> (r: Three)
    requires
        triangle_on_grid(point, t, p, a, b, c, e),
        has_foot(p, a, b, c),
        ({
            let feature = ExactProjections::of(p, a, b, c).feature();
            feature is CornerA || feature is CornerB || feature is CornerC
        }),
    ensures
        follows_way(
            nearest_offset(point, t),
            r,
            way_from_foot(p, a, b, c),
            ExactProjections::of(p, a, b, c).divisor(),
            e,
        ),
{
    law_nearest_feature_is_exact_on_a_grid(point, t, p, a, b, c, e);
    lemma_corner_ways(p, a, b, c);
    lemma_grid_way(point, t.a, p, a, e);
    lemma_grid_way(point, t.b, p, b, e);
    lemma_grid_way(point, t.c, p, c, e);
    lemma_corner_offset(nearest_offset(point, t), way_from_foot(p, a, b, c), e)
}

/// The way from the nearest point of the edge from the first corner to the
/// second.
proof fn lemma_edge_ab(
    point: Vec3,
    t: Triangle,
    p: Exact3,
    a: Exact3,
    b: Exact3,
    c: Exact3,
    e: nat,
) -> (r: Three)
    requires
        triangle_on_grid(point, t, p, a, b, c, e),
        has_foot(p, a, b, c),
        ExactProjections::of(p, a, b, c).feature() is EdgeAb,
    ensures
        follows_way(
            nearest_offset(point, t),
            r,
            way_from_foot(p, a, b, c),
            ExactProjections::of(p, a, b, c).divisor(),
            e,
        ),
{
    let x = ExactProjections::of(p, a, b, c);
    let f = grid_of_products(e);
    lemma_projections_on_grid(point, t, p, a, b, c, e);
    law_nearest_feature_is_exact_on_a_grid(point, t, p, a, b, c, e);
    law_foot_is_nearest(p, a, b, c, 1, 0, 0);
    let q = Projections::of(point, t);
    let (u, v, w) = x.weights();
    let n = x.divisor();
    lemma_way_seen(p, a, b, c, u, v, w);
    lemma_grid_way(point, t.a, p, a, e);
    lemma_grid_way(t.b, t.a, b, a, e);
    lemma_grid_difference(q.d1, q.d3, x.d1, x.d3, f);
    lemma_ratio(q.d1, q.d1.minus(q.d3), v, n, f);
    let share = q.d1.over(q.d1.minus(q.d3));
    let (i, j, k) = (p.minus(a), b.minus(a), c.minus(a));
    lemma_no_share(k);
    lemma_edge_offset(point.minus(t.a), t.b.minus(t.a), share, i, j, v, n, e)
}

/// The way from the nearest point of the edge from the first corner to the
/// third.
proof fn lemma_edge_ac(
    point: Vec3,
    t: Triangle,
    p: Exact3,
    a: Exact3,
    b: Exact3,
    c: Exact3,
    e: nat,
) -> (r: Three)
    requires
        triangle_on_grid(point, t, p, a, b, c, e),
        has_foot(p, a, b, c),
        ExactProjections::of(p, a, b, c).feature() is EdgeAc,
    ensures
        follows_way(
            nearest_offset(point, t),
            r,
            way_from_foot(p, a, b, c),
            ExactProjections::of(p, a, b, c).divisor(),
            e,
        ),
{
    let x = ExactProjections::of(p, a, b, c);
    let f = grid_of_products(e);
    lemma_projections_on_grid(point, t, p, a, b, c, e);
    law_nearest_feature_is_exact_on_a_grid(point, t, p, a, b, c, e);
    law_foot_is_nearest(p, a, b, c, 1, 0, 0);
    let q = Projections::of(point, t);
    let (u, v, w) = x.weights();
    let n = x.divisor();
    lemma_way_seen(p, a, b, c, u, v, w);
    lemma_grid_way(point, t.a, p, a, e);
    lemma_grid_way(t.c, t.a, c, a, e);
    lemma_grid_difference(q.d2, q.d6, x.d2, x.d6, f);
    lemma_ratio(q.d2, q.d2.minus(q.d6), w, n, f);
    let share = q.d2.over(q.d2.minus(q.d6));
    let (i, j, k) = (p.minus(a), c.minus(a), b.minus(a));
    lemma_no_share(k);
    lemma_edge_offset(point.minus(t.a), t.c.minus(t.a), share, i, j, w, n, e)
}

/// The way from the nearest point of the edge from the second corner to the
/// third.
proof fn lemma_edge_bc(
    point: Vec3,
    t: Triangle,
    p: Exact3,
    a: Exact3,
    b: Exact3,
    c: Exact3,
    e: nat,
) -> (r: Three)
    requires
        triangle_on_grid(point, t, p, a, b, c, e),
        has_foot(p, a, b, c),
        ExactProjections::of(p, a, b, c).feature() is EdgeBc,
    ensures
        follows_way(
            nearest_offset(point, t),
            r,
            way_from_foot(p, a, b, c),
            ExactProjections::of(p, a, b, c).divisor(),
            e,
        ),
{
    let x = ExactProjections::of(p, a, b, c);
    let f = grid_of_products(e);
    lemma_projections_on_grid(point, t, p, a, b, c, e);
    law_nearest_feature_is_exact_on_a_grid(point, t, p, a, b, c, e);
    law_foot_is_nearest(p, a, b, c, 1, 0, 0);
    let q = Projections::of(point, t);
    let (u, v, w) = x.weights();
    let n = x.divisor();
    lemma_way_seen(p, a, b, c, u, v, w);
    lemma_grid_way(point, t.b, p, b, e);
    lemma_grid_way(t.c, t.b, c, b, e);
    lemma_grid_difference(q.d4, q.d3, x.d4, x.d3, f);
    lemma_grid_difference(q.d5, q.d6, x.d5, x.d6, f);
    let (towards_c, towards_b) = (q.d4.minus(q.d3), q.d5.minus(q.d6));
    lemma_grid_sum(towards_c, towards_b, x.d4 - x.d3, x.d5 - x.d6, f);
    lemma_ratio(towards_c, towards_c.plus(towards_b), w, n, f);
    let share = towards_c.over(towards_c.plus(towards_b));
    lemma_edge_offset(point.minus(t.b), t.c.minus(t.b), share, p.minus(b), c.minus(b), w, n, e)
}

/// The way to the nearest point of a triangle.
proof fn lemma_offset(
    point: Vec3,
    t: Triangle,
    p: Exact3,
    a: Exact3,
    b: Exact3,
    c: Exact3,
    e: nat,
) -> (r: Three)
    requires
        triangle_on_grid(point, t, p, a, b, c, e),
        has_foot(p, a, b, c),
    ensures
        follows_way(
            nearest_offset(point, t),
            r,
            way_from_foot(p, a, b, c),
            ExactProjections::of(p, a, b, c).divisor(),
            e,
        ),
{
    match ExactProjections::of(p, a, b, c).feature() {
        Feature::EdgeAb => lemma_edge_ab(point, t, p, a, b, c, e),
        Feature::EdgeAc => lemma_edge_ac(point, t, p, a, b, c, e),
        Feature::EdgeBc => lemma_edge_bc(point, t, p, a, b, c, e),
        Feature::Inside => lemma_inside_offset(point, t, p, a, b, c, e),
        _ => lemma_nearest_corner(point, t, p, a, b, c, e),
    }
}

/// The way from a corner.
proof fn lemma_corner_offset(off: Vec3, way: Exact3, e: nat) -> (r: Three)
    requires
        point_on_grid(off, way, e),
        place_within(way, 26),
        120 <= e <= 168,
    ensures
        follows_way(off, r, way, 1, e),
{
    lemma_follows_exactly(off.x, way.x, e);
    lemma_follows_exactly(off.y, way.y, e);
    lemma_follows_exactly(off.z, way.z, e);
    Three { x: way.x as real, y: way.y as real, z: way.z as real }
}

/// The square of a coordinate that is off a little.
#[verifier::rlimit(50)]
proof fn lemma_square_off(x: real, r: real, s: real)
    requires
        size(x - r * s) <= 512real * part(s),
        size(r) <= 80real,
        s > 0real,
    ensures
        size(x * x - (r * r) * (s * s)) <= 82432real * part(s * s),
        size(x) <= 81real * s,
        size(x * x) <= 6561real * (s * s),
{
    let y = r * s;
    lemma_product_size(r, s, 80real, s);
    lemma_within(y, x, 80real * s, 512real * part(s));
    let (off, sum) = (x - y, x + y);
    lemma_sizes_add(x, y);
    lemma_product_size(off, sum, 512real * part(s), 161real * s);
    assert((512real * part(s)) * (161real * s) == 82432real * part(s * s)) by (nonlinear_arith);
    assert(off * sum == x * x - y * y) by (nonlinear_arith)
        requires
            off == x - y,
            sum == x + y,
    ;
    assert(y * y == (r * r) * (s * s)) by (nonlinear_arith)
        requires
            y == r * s,
    ;
    lemma_product_size(x, x, 81real * s, 81real * s);
    assert((81real * s) * (81real * s) == 6561real * (s * s)) by (nonlinear_arith);
}

/// The squared length of a way that is off a little.
#[verifier::rlimit(50)]
proof fn lemma_length_off(off: Vec3, r: Three, way: Exact3, n: int, e: nat)
    requires
        follows_way(off, r, way, n, e),
        120 <= e <= 168,
    ensures
        near(
            off.length_squared(),
            r.dot(r) * (grid_step(e) * grid_step(e)),
            (grid_step(e) * grid_step(e)) / 32real,
        ),
{
    lemma_one_in_units();
    lemma_grid_step(e);
    let s = grid_step(e);
    let q = s * s;
    assert(1real / 1152921504606846976real <= q <= 274877906944real) by (nonlinear_arith)
        requires
            q == s * s,
            1real / 1073741824real <= s <= 524288real,
    ;
    let (x, y, z) = (value(off.x), value(off.y), value(off.z));
    lemma_square_off(x, r.x, s);
    lemma_square_off(y, r.y, s);
    lemma_square_off(z, r.z, s);
    assert(dot_sizes(off, off) <= 19683real * q);
    law_value_of_dot(off, off);
    lemma_times_three(r.x * r.x, r.y * r.y, r.z * r.z, q);
    let exact = x * x + y * y + z * z;
    assert(exact_dot(off, off) == exact);
    lemma_sizes_add(x * x - (r.x * r.x) * q, y * y - (r.y * r.y) * q);
    lemma_sizes_add(
        (x * x - (r.x * r.x) * q) + (y * y - (r.y * r.y) * q),
        z * z - (r.z * r.z) * q,
    );
    lemma_sizes_add(value(off.length_squared()) - exact, exact - r.dot(r) * q);
}

/// The squared length of a way in both forms.
proof fn lemma_square_of_way(r: real, way: int, n: int)
    requires
        (n as real) * r == way as real || (n as real) * r == -(way as real),
    ensures
        ((n * n) as real) * (r * r) == (way * way) as real,
{
    lemma_real_product(n, n);
    lemma_real_product(way, way);
    let (k, w) = (n as real, way as real);
    assert((k * k) * (r * r) == w * w) by (nonlinear_arith)
        requires
            k * r == w || k * r == -w,
    ;
}

/// The measured squared distance, multiplied out by the divisor of the weights.
proof fn lemma_measured(
    point: Vec3,
    t: Triangle,
    p: Exact3,
    a: Exact3,
    b: Exact3,
    c: Exact3,
    e: nat,
) -> (square: real)
    requires
        triangle_on_grid(point, t, p, a, b, c, e),
        has_foot(p, a, b, c),
    ensures
        near(
            nearest_offset(point, t).length_squared(),
            square * (grid_step(e) * grid_step(e)),
            (grid_step(e) * grid_step(e)) / 32real,
        ),
        ({
            let n = ExactProjections::of(p, a, b, c).divisor();
            ((n * n) as real) * square == way_from_foot(p, a, b, c).length_squared() as real
        }),
{
    let r = lemma_offset(point, t, p, a, b, c, e);
    let n = ExactProjections::of(p, a, b, c).divisor();
    let way = way_from_foot(p, a, b, c);
    lemma_length_off(nearest_offset(point, t), r, way, n, e);
    lemma_square_of_way(r.x, way.x, n);
    lemma_square_of_way(r.y, way.y, n);
    lemma_square_of_way(r.z, way.z, n);
    let k = (n * n) as real;
    let (x, y, z) = (r.x * r.x, r.y * r.y, r.z * r.z);
    assert(k * (x + y + z) == k * x + k * y + k * z) by (nonlinear_arith);
    r.dot(r)
}

/// The measured distance is the distance to the nearest point of the triangle.
///
/// On a grid whose step is no less than one part in two to the twenty-ninth and
/// no more than two to the nineteenth, let no coordinate be more than thirteen
/// steps from the origin. Then no point of the triangle, given by the weights of
/// its corners, is nearer than what is measured, but for a thirty-second of the
/// square of a step.
pub proof fn law_no_point_of_a_triangle_is_nearer(
    point: Vec3,
    t: Triangle,
    p: Exact3,
    a: Exact3,
    b: Exact3,
    c: Exact3,
    e: nat,
    u: int,
    v: int,
    w: int,
)
    requires
        triangle_on_grid(point, t, p, a, b, c, e),
        has_foot(p, a, b, c),
        within_triangle(u, v, w),
    ensures
        ({
            let m = ((u + v + w) * (u + v + w)) as real;
            let step = grid_step(e) * grid_step(e);
            let measured = nearest_offset(point, t).length_squared();
            &&& measured.is_finite()
            &&& m * value(measured) <= (way_from(p, a, b, c, u, v, w).length_squared() as real + m
                / 32real) * step
        }),
{
    let square = lemma_measured(point, t, p, a, b, c, e);
    law_foot_is_nearest(p, a, b, c, u, v, w);
    let n = ExactProjections::of(p, a, b, c).divisor();
    let (foot, other) = (
        way_from_foot(p, a, b, c).length_squared(),
        way_from(p, a, b, c, u, v, w).length_squared(),
    );
    let m = u + v + w;
    let (nn, mm) = (n * n, m * m);
    assert(nn > 0 && mm > 0) by (nonlinear_arith)
        requires
            nn == n * n,
            mm == m * m,
            n > 0,
            m > 0,
    ;
    lemma_real_product(mm, foot);
    lemma_real_product(nn, other);
    let (i, j, k, l) = (nn as real, mm as real, foot as real, other as real);
    assert(j * k <= i * l);
    assert(j * square <= l) by (nonlinear_arith)
        requires
            j * k <= i * l,
            i * square == k,
            i > 0real,
    ;
    lemma_grid_step(e);
    let step = grid_step(e) * grid_step(e);
    assert(step > 0real) by (nonlinear_arith)
        requires
            step == grid_step(e) * grid_step(e),
            grid_step(e) > 0real,
    ;
    let measured = value(nearest_offset(point, t).length_squared());
    assert(measured <= square * step + step / 32real);
    assert(j * measured <= (l + j / 32real) * step) by (nonlinear_arith)
        requires
            measured <= square * step + step / 32real,
            j * square <= l,
            j > 0real,
            step > 0real,
    ;
}

/// The measured distance is that of a point of the triangle: some weights of the
/// corners name one that is no farther than what is measured, but for a
/// thirty-second of the square of a step.
pub proof fn law_some_point_of_a_triangle_is_as_near(
    point: Vec3,
    t: Triangle,
    p: Exact3,
    a: Exact3,
    b: Exact3,
    c: Exact3,
    e: nat,
)
    requires
        triangle_on_grid(point, t, p, a, b, c, e),
        has_foot(p, a, b, c),
    ensures
        exists|u: int, v: int, w: int| #[trigger]
            within_triangle(u, v, w) && {
                let m = ((u + v + w) * (u + v + w)) as real;
                let step = grid_step(e) * grid_step(e);
                m * value(nearest_offset(point, t).length_squared()) >= (way_from(
                    p,
                    a,
                    b,
                    c,
                    u,
                    v,
                    w,
                ).length_squared() as real - m / 32real) * step
            },
{
    let square = lemma_measured(point, t, p, a, b, c, e);
    law_foot_is_nearest(p, a, b, c, 1, 0, 0);
    let x = ExactProjections::of(p, a, b, c);
    let (u, v, w) = x.weights();
    let n = u + v + w;
    let nn = n * n;
    assert(nn > 0) by (nonlinear_arith)
        requires
            nn == n * n,
            n > 0,
    ;
    let (i, k) = (nn as real, way_from_foot(p, a, b, c).length_squared() as real);
    let step = grid_step(e) * grid_step(e);
    let measured = value(nearest_offset(point, t).length_squared());
    assert(measured >= square * step - step / 32real);
    assert(i * measured >= (k - i / 32real) * step) by (nonlinear_arith)
        requires
            measured >= square * step - step / 32real,
            i * square == k,
            i > 0real,
    ;
    assert(within_triangle(u, v, w));
}

} // verus!
