//! Bounds on coordinates that keep every step of a computation finite.
//!
//! A bound is a power of two of units. Rounding does not go past such a bound,
//! so sums and products of bounded numbers are bounded in turn.
use crate::arithmetic::law_difference_is_nearly_exact;
use crate::binary32::{absolute, Binary32, HALF, INFINITY, NEG_INFINITY};
use crate::exact::{
    exact_normal, finite, law_cut_halves_the_area, law_cut_is_in_the_middle, measurable, slip,
    Exact3,
};
use crate::fitting::{
    corner_count, corner_sum, highest, is_corner, lowest, mean_corner, moments_about,
    outer_product, Moments,
};
use crate::rounding::{
    distance, half_even, law_nearest_keeps_order, law_rounding_error, lemma_nearest_exact,
    lemma_nearest_in_binade, lemma_units_at_least, lemma_units_in_binade, lemma_units_increase,
    nearest, saturated, units_of, BINADE, INFINITE, SIGNIFICAND_LIMIT,
};
use crate::triangle::{halves, triangle_normal, Triangle};
use crate::vector::{Mat3, Vec3};
use vstd::arithmetic::div_mod::lemma_fundamental_div_mod_converse;
use vstd::arithmetic::power2::{
    lemma2_to64, lemma_pow2_adds, lemma_pow2_pos, lemma_pow2_strictly_increases,
    lemma_pow2_unfold, pow2,
};
use vstd::prelude::*;

verus! {

/// Whether a number is finite and no greater than two to the power of `e`
/// units.
pub open spec fn bounded(x: Binary32, e: nat) -> bool {
    x.is_finite() && units_of(x.magnitude()) <= pow2(e)
}

/// Whether every coordinate is bounded.
pub open spec fn bounded_point(v: Vec3, e: nat) -> bool {
    bounded(v.x, e) && bounded(v.y, e) && bounded(v.z, e)
}

/// Whether every corner is bounded.
pub open spec fn bounded_triangle(t: Triangle, e: nat) -> bool {
    bounded_point(t.a, e) && bounded_point(t.b, e) && bounded_point(t.c, e)
}

/// Whether all corners of some triangles are bounded.
pub open spec fn bounded_triangles(triangles: Seq<Triangle>, e: nat) -> bool {
    forall|i: int| 0 <= i < triangles.len() ==> bounded_triangle(#[trigger] triangles[i], e)
}

/// Whether every axis is bounded.
pub open spec fn bounded_basis(basis: Mat3, e: nat) -> bool {
    bounded_point(basis.x_axis, e) && bounded_point(basis.y_axis, e) && bounded_point(
        basis.z_axis,
        e,
    )
}

/// The greatest exponent of a bound that is finite.
pub open spec fn top() -> nat {
    276
}

/// The magnitude of a power of two of units.
spec fn power(e: nat) -> nat {
    if e < 24 {
        pow2(e)
    } else {
        BINADE as nat + (e - 23) as nat * BINADE as nat
    }
}

proof fn lemma_power(e: nat)
    ensures
        units_of(power(e)) == pow2(e),
        e <= top() ==> power(e) < INFINITE,
{
    lemma2_to64();
    if e < 24 {
        if e < 23 {
            lemma_pow2_strictly_increases(e, 23);
        }
    } else {
        lemma_units_in_binade(BINADE as nat, (e - 23) as nat);
        lemma_pow2_adds(23, (e - 23) as nat);
    }
}

/// A quotient within a bound is rounded within it.
proof fn lemma_rounded_bounded(negative: bool, n: nat, d: nat, e: nat)
    requires
        d > 0,
        n <= pow2(e) * d,
        e <= top(),
    ensures
        bounded(Binary32::rounded(negative, n, d), e),
        saturated(nearest(n, d)) == nearest(n, d),
        units_of(nearest(n, d)) <= pow2(e),
{
    lemma_power(e);
    law_nearest_keeps_order(n, pow2(e) * d, d);
    lemma_nearest_exact(power(e), d);
    if nearest(n, d) < power(e) {
        lemma_units_increase(nearest(n, d), power(e));
    }
}

/// A greater bound is one too.
proof fn lemma_looser(x: Binary32, e: nat, f: nat)
    requires
        bounded(x, e),
        e <= f,
    ensures
        bounded(x, f),
{
    if e < f {
        lemma_pow2_strictly_increases(e, f);
    }
}

/// Sums and differences double a bound at most.
pub(crate) proof fn lemma_sum_bounded(a: Binary32, b: Binary32, e: nat)
    requires
        bounded(a, e),
        bounded(b, e),
        e < top(),
    ensures
        bounded(a.plus(b), e + 1),
        bounded(a.minus(b), e + 1),
{
    reveal(Binary32::spec_plus);
    reveal(Binary32::spec_minus);
    lemma_pow2_unfold(e + 1);
    lemma_pow2_pos(e + 1);
    let sum = a.units() + b.units();
    let difference = a.units() - b.units();
    assert(pow2(e + 1) * 1 == pow2(e + 1));
    lemma_rounded_bounded(sum < 0, absolute(sum), 1, e + 1);
    lemma_rounded_bounded(difference < 0, absolute(difference), 1, e + 1);
    assert(b.neg().magnitude() == b.magnitude());
    assert(b.neg().units() == -b.units());
}

/// The exponents of bounds on factors add up.
pub(crate) proof fn lemma_product_bounded(a: Binary32, b: Binary32, e: nat, f: nat)
    requires
        bounded(a, e),
        bounded(b, f),
        149 <= e + f,
        e + f - 149 <= top(),
    ensures
        bounded(a.times(b), (e + f - 149) as nat),
{
    reveal(Binary32::spec_times);
    let (x, y) = (units_of(a.magnitude()), units_of(b.magnitude()));
    lemma_pow2_adds(e, f);
    lemma_pow2_adds((e + f - 149) as nat, 149);
    assert(x * y <= pow2(e) * pow2(f)) by (nonlinear_arith)
        requires
            0 <= x <= pow2(e),
            0 <= y <= pow2(f),
    ;
    lemma_pow2_pos(149);
    lemma_rounded_bounded(a.negative() != b.negative(), x * y, pow2(149), (e + f - 149) as nat);
}

/// The middle of two numbers is within their bound.
proof fn lemma_middle_bounded(a: Binary32, b: Binary32, e: nat)
    requires
        bounded(a, e),
        bounded(b, e),
        e < top(),
    ensures
        bounded(a.plus(b).times(Binary32::of(HALF)), e),
{
    lemma_sum_bounded(a, b, e);
    lemma2_to64();
    lemma_units_in_binade(BINADE as nat, 125);
    lemma_pow2_adds(23, 125);
    assert(bounded(Binary32::of(HALF), 148));
    lemma_product_bounded(a.plus(b), Binary32::of(HALF), e + 1, 148);
}

/// Cutting keeps corners within their bounds.
pub proof fn law_cut_keeps_bounds(t: Triangle, e: nat)
    requires
        bounded_triangle(t, e),
        e < top(),
    ensures
        bounded_triangle(halves(t).0, e),
        bounded_triangle(halves(t).1, e),
        finite(t.from_longest_edge().0.plus(t.from_longest_edge().1)),
{
    reveal(halves);
    let (p, q, r) = t.from_longest_edge();
    lemma_middle_bounded(p.x, q.x, e);
    lemma_middle_bounded(p.y, q.y, e);
    lemma_middle_bounded(p.z, q.z, e);
    lemma_sum_bounded(p.x, q.x, e);
    lemma_sum_bounded(p.y, q.y, e);
    lemma_sum_bounded(p.z, q.z, e);
}

/// A product of rounded differences.
proof fn lemma_product_of_differences(
    a: Binary32,
    b: Binary32,
    x: int,
    y: int,
)
    requires
        bounded(a, 210),
        bounded(b, 210),
        SIGNIFICAND_LIMIT * absolute(a.units() - x) <= absolute(x),
        SIGNIFICAND_LIMIT * absolute(b.units() - y) <= absolute(y),
    ensures
        bounded(a.times(b), 271),
        SIGNIFICAND_LIMIT * absolute(a.times(b).units() * pow2(149) - x * y) <= SIGNIFICAND_LIMIT
            * pow2(149) + 5 * absolute(x * y),
{
    lemma_product_bounded(a, b, 210, 210);
    reveal(Binary32::spec_times);
    let (u, v) = (units_of(a.magnitude()), units_of(b.magnitude()));
    let one = pow2(149);
    lemma_pow2_pos(149);
    let n = u * v;
    lemma_pow2_adds(210, 210);
    lemma_pow2_adds(271, 149);
    assert(n <= pow2(271) * one) by (nonlinear_arith)
        requires
            n == u * v,
            0 <= u <= pow2(210),
            0 <= v <= pow2(210),
            pow2(210) * pow2(210) == pow2(271) * one,
    ;
    lemma_rounded_bounded(a.negative() != b.negative(), n, one, 271);
    law_rounding_error(n, one);
    let k = units_of(nearest(n, one));
    let exact = a.units() * b.units();
    assert(absolute(exact) == n && (exact == n || exact == -n) && (a.negative() != b.negative()
        ==> exact == -n) && (a.negative() == b.negative() ==> exact == n)) by (nonlinear_arith)
        requires
            exact == a.units() * b.units(),
            n == u * v,
            a.units() == (if a.negative() {
                -(u as int)
            } else {
                u as int
            }),
            b.units() == (if b.negative() {
                -(v as int)
            } else {
                v as int
            }),
    ;
    let result = a.times(b).units();
    assert(result * one == if a.negative() != b.negative() {
        -((k * one) as int)
    } else {
        (k * one) as int
    }) by (nonlinear_arith)
        requires
            result == (if a.negative() != b.negative() {
                -(k as int)
            } else {
                k as int
            }),
    ;
    assert(absolute(result * one - exact) == distance(k, one, n));
    // The factors themselves are off by one part each.
    let s = absolute(x * y);
    let (p, q) = (a.units() - x, b.units() - y);
    assert(exact - x * y == p * b.units() + x * q) by (nonlinear_arith)
        requires
            exact == a.units() * b.units(),
            p == a.units() - x,
            q == b.units() - y,
    ;
    lemma_absolute_product(p, b.units());
    lemma_absolute_product(x, q);
    lemma_absolute_product(x, y);
    let (ap, ab, ax, aq, ay) = (
        absolute(p),
        absolute(b.units()),
        absolute(x),
        absolute(q),
        absolute(y),
    );
    assert(ab <= 2 * ay);
    assert(0x100_0000 * (ap * ab) <= 2 * (ax * ay)) by (nonlinear_arith)
        requires
            0x100_0000 * ap <= ax,
            ab <= 2 * ay,
            ap >= 0,
            ab >= 0,
            ax >= 0,
    ;
    assert(0x100_0000 * (ax * aq) <= ax * ay) by (nonlinear_arith)
        requires
            0x100_0000 * aq <= ay,
            ax >= 0,
    ;
    assert(0x100_0000 * absolute(exact - x * y) <= 3 * s);
    assert(n <= 2 * s);
}

proof fn lemma_absolute_product(x: int, y: int)
    ensures
        absolute(x * y) == absolute(x) * absolute(y),
{
    assert(absolute(x * y) == absolute(x) * absolute(y)) by (nonlinear_arith);
}

/// How far one coordinate of a rounded normal may be from the exact one, given
/// the sizes of the two products that it is the difference of.
pub open spec fn normal_is_close(rounded: Binary32, exact: int, products: nat) -> bool {
    SIGNIFICAND_LIMIT * absolute(rounded.units() * pow2(149) - exact) <= 3 * (SIGNIFICAND_LIMIT
        * pow2(149)) + 7 * products
}

proof fn lemma_cross_coordinate(
    a: Binary32,
    b: Binary32,
    c: Binary32,
    d: Binary32,
    x: int,
    y: int,
    z: int,
    w: int,
)
    requires
        bounded(a, 210) && bounded(b, 210) && bounded(c, 210) && bounded(d, 210),
        SIGNIFICAND_LIMIT * absolute(a.units() - x) <= absolute(x),
        SIGNIFICAND_LIMIT * absolute(b.units() - y) <= absolute(y),
        SIGNIFICAND_LIMIT * absolute(c.units() - z) <= absolute(z),
        SIGNIFICAND_LIMIT * absolute(d.units() - w) <= absolute(w),
    ensures
        bounded(a.times(b).minus(c.times(d)), 272),
        normal_is_close(
            a.times(b).minus(c.times(d)),
            x * y - z * w,
            absolute(x * y) + absolute(z * w),
        ),
{
    lemma_product_of_differences(a, b, x, y);
    lemma_product_of_differences(c, d, z, w);
    let (p, q) = (a.times(b), c.times(d));
    lemma_sum_bounded(p, q, 271);
    law_difference_is_nearly_exact(p, q);
    let one = pow2(149);
    lemma_pow2_pos(149);
    let r = p.minus(q).units();
    let off = r - (p.units() - q.units());
    let gap = p.units() - q.units();
    assert(r * one - (x * y - z * w) == off * one + (p.units() * one - x * y) - (q.units() * one - z
        * w)) by (nonlinear_arith)
        requires
            off == r - (p.units() - q.units()),
    ;
    lemma_absolute_product(off, one as int);
    lemma_absolute_product(gap, one as int);
    assert(0x100_0000 * (absolute(off) * one) <= absolute(gap) * one) by (nonlinear_arith)
        requires
            0x100_0000 * absolute(off) <= absolute(gap),
            one >= 0,
    ;
    assert(gap * one == (p.units() * one - x * y) - (q.units() * one - z * w) + (x * y - z * w))
        by (nonlinear_arith)
        requires
            gap == p.units() - q.units(),
    ;
}

/// The rounded normal of a triangle is the exact one up to rounding: each
/// coordinate, a difference of two products, is off by three units and seven
/// parts in two to the twenty-fourth of the sizes of these products at most.
/// Coordinates may be as great as two to the sixtieth.
pub proof fn law_normal_is_nearly_exact(t: Triangle)
    requires
        bounded_triangle(t, 209),
    ensures
        ({
            let p = Exact3::of(t.b).minus(Exact3::of(t.a));
            let q = Exact3::of(t.c).minus(Exact3::of(t.a));
            let rounded = triangle_normal(t);
            let exact = exact_normal(t);
            &&& bounded_point(rounded, 272)
            &&& normal_is_close(rounded.x, exact.x, absolute(p.y * q.z) + absolute(q.y * p.z))
            &&& normal_is_close(rounded.y, exact.y, absolute(p.z * q.x) + absolute(q.z * p.x))
            &&& normal_is_close(rounded.z, exact.z, absolute(p.x * q.y) + absolute(q.x * p.y))
        }),
{
    let (e, f) = (t.b.minus(t.a), t.c.minus(t.a));
    let p = Exact3::of(t.b).minus(Exact3::of(t.a));
    let q = Exact3::of(t.c).minus(Exact3::of(t.a));
    lemma_edge_is_close(t.b, t.a);
    lemma_edge_is_close(t.c, t.a);
    lemma_cross_coordinate(e.y, f.z, f.y, e.z, p.y, q.z, q.y, p.z);
    lemma_cross_coordinate(e.z, f.x, f.z, e.x, p.z, q.x, q.z, p.x);
    lemma_cross_coordinate(e.x, f.y, f.x, e.y, p.x, q.y, q.x, p.y);
    assert(q.y * p.z == p.z * q.y && q.z * p.x == p.x * q.z && q.x * p.y == p.y * q.x)
        by (nonlinear_arith);
}

proof fn lemma_edge_is_close(b: Vec3, a: Vec3)
    requires
        bounded_point(a, 209),
        bounded_point(b, 209),
    ensures
        ({
            let e = b.minus(a);
            &&& bounded_point(e, 210)
            &&& SIGNIFICAND_LIMIT * absolute(e.x.units() - (b.x.units() - a.x.units())) <= absolute(
                b.x.units() - a.x.units(),
            )
            &&& SIGNIFICAND_LIMIT * absolute(e.y.units() - (b.y.units() - a.y.units())) <= absolute(
                b.y.units() - a.y.units(),
            )
            &&& SIGNIFICAND_LIMIT * absolute(e.z.units() - (b.z.units() - a.z.units())) <= absolute(
                b.z.units() - a.z.units(),
            )
        }),
{
    lemma_sum_bounded(b.x, a.x, 209);
    lemma_sum_bounded(b.y, a.y, 209);
    lemma_sum_bounded(b.z, a.z, 209);
    law_difference_is_nearly_exact(b.x, a.x);
    law_difference_is_nearly_exact(b.y, a.y);
    law_difference_is_nearly_exact(b.z, a.z);
}

proof fn lemma_bounded_edge(b: Vec3, a: Vec3, e: nat)
    requires
        bounded_point(a, e),
        bounded_point(b, e),
    ensures
        ({
            let p = Exact3::of(b).minus(Exact3::of(a));
            &&& absolute(p.x) <= 2 * pow2(e)
            &&& absolute(p.y) <= 2 * pow2(e)
            &&& absolute(p.z) <= 2 * pow2(e)
        }),
{
}

proof fn lemma_bounded_product(x: int, y: int, a: nat, b: nat)
    requires
        absolute(x) <= a,
        absolute(y) <= b,
    ensures
        absolute(x * y) <= a * b,
{
    lemma_absolute_product(x, y);
    let (p, q) = (absolute(x), absolute(y));
    assert(p * q <= a * b) by (nonlinear_arith)
        requires
            0 <= p <= a,
            0 <= q <= b,
    ;
}

/// The rounded normal of a bounded triangle.
proof fn lemma_bounded_normal(t: Triangle, e: nat)
    requires
        bounded_triangle(t, e),
        e <= 209,
    ensures
        ({
            let s = pow2(e);
            let rounded = triangle_normal(t);
            let exact = exact_normal(t);
            &&& normal_is_close(rounded.x, exact.x, 8 * (s * s))
            &&& normal_is_close(rounded.y, exact.y, 8 * (s * s))
            &&& normal_is_close(rounded.z, exact.z, 8 * (s * s))
        }),
{
    let s = pow2(e);
    let p = Exact3::of(t.b).minus(Exact3::of(t.a));
    let q = Exact3::of(t.c).minus(Exact3::of(t.a));
    lemma_looser_triangle(t, e, 209);
    law_normal_is_nearly_exact(t);
    lemma_bounded_edge(t.b, t.a, e);
    lemma_bounded_edge(t.c, t.a, e);
    assert((2 * s) * (2 * s) == 4 * (s * s)) by (nonlinear_arith);
    lemma_bounded_product(p.y, q.z, 2 * s, 2 * s);
    lemma_bounded_product(q.y, p.z, 2 * s, 2 * s);
    lemma_bounded_product(p.z, q.x, 2 * s, 2 * s);
    lemma_bounded_product(q.z, p.x, 2 * s, 2 * s);
    lemma_bounded_product(p.x, q.y, 2 * s, 2 * s);
    lemma_bounded_product(q.x, p.y, 2 * s, 2 * s);
}

pub(crate) proof fn lemma_looser_triangle(t: Triangle, e: nat, f: nat)
    requires
        bounded_triangle(t, e),
        e <= f,
    ensures
        bounded_triangle(t, f),
{
    if e < f {
        lemma_pow2_strictly_increases(e, f);
    }
}

/// Whether a coordinate of a rounded normal is half that of another up to
/// rounding, for corners within `s` units.
pub open spec fn halved_but_for_rounding(half: Binary32, whole: Binary32, s: nat) -> bool {
    SIGNIFICAND_LIMIT * absolute((2 * half.units() - whole.units()) * pow2(149)) <= 9 * (
    SIGNIFICAND_LIMIT * pow2(149)) + 4 * (SIGNIFICAND_LIMIT * s) + 192 * (s * s)
}

proof fn lemma_halved_coordinate(
    half: Binary32,
    whole: Binary32,
    x: int,
    y: int,
    cross: int,
    s: nat,
)
    requires
        normal_is_close(half, x, 8 * (s * s)),
        normal_is_close(whole, y, 8 * (s * s)),
        2 * x == y + cross,
        SIGNIFICAND_LIMIT * absolute(cross) <= 4 * (SIGNIFICAND_LIMIT * s) + 24 * (s * s),
    ensures
        halved_but_for_rounding(half, whole, s),
{
    let one = pow2(149);
    let (p, q) = (half.units(), whole.units());
    assert((2 * p - q) * one == 2 * (p * one - x) - (q * one - y) + (2 * x - y))
        by (nonlinear_arith);
}

/// What a slip adds to one coordinate of a normal.
proof fn lemma_slip_times_edge(a: int, b: int, c: int, d: int, s: nat)
    requires
        SIGNIFICAND_LIMIT * absolute(a) <= SIGNIFICAND_LIMIT + 6 * s,
        SIGNIFICAND_LIMIT * absolute(c) <= SIGNIFICAND_LIMIT + 6 * s,
        absolute(b) <= 2 * s,
        absolute(d) <= 2 * s,
    ensures
        SIGNIFICAND_LIMIT * absolute(a * b - c * d) <= 4 * (SIGNIFICAND_LIMIT * s) + 24 * (s * s),
{
    lemma_absolute_product(a, b);
    lemma_absolute_product(c, d);
    let (p, q, r, t) = (absolute(a), absolute(b), absolute(c), absolute(d));
    assert(0x100_0000 * (p * q) <= 2 * (0x100_0000 * s) + 12 * (s * s)) by (nonlinear_arith)
        requires
            0x100_0000 * p <= 0x100_0000 + 6 * s,
            0 <= q <= 2 * s,
            p >= 0,
    ;
    assert(0x100_0000 * (r * t) <= 2 * (0x100_0000 * s) + 12 * (s * s)) by (nonlinear_arith)
        requires
            0x100_0000 * r <= 0x100_0000 + 6 * s,
            0 <= t <= 2 * s,
            r >= 0,
    ;
}

/// The rounded normals of both halves of a triangle are half that of the whole
/// up to rounding, so that both halves have half its area and its winding.
/// Coordinates may be as great as two to the sixtieth.
pub proof fn law_rounded_normals_are_halved(t: Triangle, e: nat)
    requires
        bounded_triangle(t, e),
        e <= 209,
    ensures
        ({
            let whole = triangle_normal(t);
            let first = triangle_normal(halves(t).0);
            let second = triangle_normal(halves(t).1);
            let s = pow2(e);
            &&& halved_but_for_rounding(first.x, whole.x, s)
            &&& halved_but_for_rounding(first.y, whole.y, s)
            &&& halved_but_for_rounding(first.z, whole.z, s)
            &&& halved_but_for_rounding(second.x, whole.x, s)
            &&& halved_but_for_rounding(second.y, whole.y, s)
            &&& halved_but_for_rounding(second.z, whole.z, s)
        }),
{
    let s = pow2(e);
    let (p, q, r) = t.from_longest_edge();
    let (first, second) = halves(t);
    law_cut_keeps_bounds(t, e);
    law_cut_is_in_the_middle(t);
    law_cut_halves_the_area(t);
    lemma_bounded_normal(t, e);
    lemma_bounded_normal(first, e);
    lemma_bounded_normal(second, e);
    let off = slip(p, q, first.b);
    let (a, b) = (Exact3::of(r).minus(Exact3::of(p)), Exact3::of(r).minus(Exact3::of(q)));
    lemma_bounded_edge(r, p, e);
    lemma_bounded_edge(r, q, e);
    lemma_slip_times_edge(off.y, a.z, off.z, a.y, s);
    lemma_slip_times_edge(off.z, a.x, off.x, a.z, s);
    lemma_slip_times_edge(off.x, a.y, off.y, a.x, s);
    lemma_slip_times_edge(off.y, b.z, off.z, b.y, s);
    lemma_slip_times_edge(off.z, b.x, off.x, b.z, s);
    lemma_slip_times_edge(off.x, b.y, off.y, b.x, s);
    let (u, v) = (off.cross(a), off.cross(b));
    let (n, m, w) = (exact_normal(first), exact_normal(second), exact_normal(t));
    let (x, y, z) = (triangle_normal(first), triangle_normal(second), triangle_normal(t));
    assert(n.doubled() == w.plus(u));
    assert(m.doubled() == w.minus(v));
    lemma_halved_coordinate(x.x, z.x, n.x, w.x, u.x, s);
    lemma_halved_coordinate(x.y, z.y, n.y, w.y, u.y, s);
    lemma_halved_coordinate(x.z, z.z, n.z, w.z, u.z, s);
    lemma_halved_coordinate(y.x, z.x, m.x, w.x, -v.x, s);
    lemma_halved_coordinate(y.y, z.y, m.y, w.y, -v.y, s);
    lemma_halved_coordinate(y.z, z.z, m.z, w.z, -v.z, s);
}

/// A sum that has grown far above its terms grows no more.
proof fn lemma_sum_stays_bounded(sum: Binary32, term: Binary32, e: nat)
    requires
        bounded(sum, e + 24),
        bounded(term, e),
        e + 24 <= top(),
    ensures
        bounded(sum.plus(term), e + 24),
{
    reveal(Binary32::spec_plus);
    let exact = sum.units() + term.units();
    let n = absolute(exact);
    let most = pow2(e + 24) + pow2(e);
    lemma2_to64();
    lemma_pow2_unfold(e + 1);
    lemma_pow2_adds(23, e + 1);
    lemma_pow2_pos(e);
    lemma_pow2_pos(e + 1);
    let step = pow2(e + 1);
    assert(1 * step == step);
    assert(most < SIGNIFICAND_LIMIT * (1 * step)) by (nonlinear_arith)
        requires
            most == BINADE as nat * step + pow2(e),
            step == 2 * pow2(e),
            1 * step == step,
            pow2(e) > 0,
            BINADE == 0x80_0000,
            SIGNIFICAND_LIMIT == 0x100_0000,
    ;
    lemma_nearest_in_binade(most, 1, e + 1);
    lemma_fundamental_div_mod_converse(
        most as int,
        step as int,
        BINADE as int,
        pow2(e) as int,
    );
    assert(half_even(most, step) == BINADE);
    lemma_power(e + 24);
    assert(nearest(most, 1) == power(e + 24));
    law_nearest_keeps_order(n, most, 1);
    if nearest(n, 1) < power(e + 24) {
        lemma_units_increase(nearest(n, 1), power(e + 24));
    }
    lemma_pow2_pos(e + 24);
}

/// Whether a number is finite and no greater than the sum of so many terms
/// within a bound, as far as such a sum grows.
spec fn within_sum(x: Binary32, count: nat, e: nat) -> bool {
    x.is_finite() && units_of(x.magnitude()) <= fewer(count) * pow2(e)
}

/// A count, as far as it is exact.
spec fn fewer(count: nat) -> nat {
    if count < SIGNIFICAND_LIMIT {
        count
    } else {
        SIGNIFICAND_LIMIT as nat
    }
}

/// A multiple of a power of two that is not too great is a magnitude.
proof fn lemma_multiple(a: nat, e: nat) -> (magnitude: nat)
    requires
        a <= SIGNIFICAND_LIMIT,
    ensures
        units_of(magnitude) == a * pow2(e),
    decreases e,
{
    lemma2_to64();
    if e == 0 {
        assert(units_of(BINADE as nat) == BINADE);
        assert(a * pow2(0) == a) by (nonlinear_arith)
            requires
                pow2(0) == 1,
        ;
        a
    } else if a < BINADE {
        lemma_pow2_unfold(e);
        let below = (e - 1) as nat;
        assert((2 * a) * pow2(below) == a * pow2(e)) by (nonlinear_arith)
            requires
                pow2(e) == 2 * pow2(below),
        ;
        lemma_multiple(2 * a, below)
    } else {
        lemma_units_in_binade(a, e);
        a + e * BINADE as nat
    }
}

/// A sum with one more term.
proof fn lemma_sum_grows(sum: Binary32, term: Binary32, count: nat, e: nat)
    requires
        within_sum(sum, count, e),
        bounded(term, e),
        e + 24 <= top(),
    ensures
        within_sum(sum.plus(term), count + 1, e),
{
    lemma2_to64();
    lemma_pow2_adds(24, e);
    if count < SIGNIFICAND_LIMIT {
        reveal(Binary32::spec_plus);
        let next = count + 1;
        let magnitude = lemma_multiple(next, e);
        let n = absolute(sum.units() + term.units());
        lemma_pow2_pos(e);
        assert(next * pow2(e) == count * pow2(e) + pow2(e)) by (nonlinear_arith)
            requires
                next == count + 1,
        ;
        assert(next * pow2(e) <= pow2(24) * pow2(e)) by (nonlinear_arith)
            requires
                next <= pow2(24),
                pow2(e) > 0,
        ;
        assert(units_of(magnitude) * 1 == units_of(magnitude));
        assert(pow2(e + 24) * 1 == pow2(e + 24));
        law_nearest_keeps_order(n, units_of(magnitude), 1);
        lemma_nearest_exact(magnitude, 1);
        if nearest(n, 1) < magnitude {
            lemma_units_increase(nearest(n, 1), magnitude);
        }
        lemma_rounded_bounded(sum.units() + term.units() < 0, n, 1, e + 24);
    } else {
        lemma_sum_stays_bounded(sum, term, e);
    }
}

proof fn lemma_point_sum_grows(sum: Vec3, term: Vec3, count: nat, e: nat)
    requires
        within_sum(sum.x, count, e) && within_sum(sum.y, count, e) && within_sum(sum.z, count, e),
        bounded_point(term, e),
        e + 24 <= top(),
    ensures
        ({
            let next = sum.plus(term);
            within_sum(next.x, count + 1, e) && within_sum(next.y, count + 1, e) && within_sum(
                next.z,
                count + 1,
                e,
            )
        }),
{
    lemma_sum_grows(sum.x, term.x, count, e);
    lemma_sum_grows(sum.y, term.y, count, e);
    lemma_sum_grows(sum.z, term.z, count, e);
}

/// A sum divided by the number of its terms.
proof fn lemma_mean_of_terms(x: Binary32, count: u64, e: nat)
    requires
        within_sum(x, count as nat, e),
        count > 0,
        e <= top(),
    ensures
        bounded(x.over(Binary32::from_count(count)), e),
{
    reveal(Binary32::spec_over);
    reveal(Binary32::spec_from_count);
    let divisor = Binary32::from_count(count);
    let one = pow2(149);
    let n = count as nat * one;
    let least = fewer(count as nat);
    lemma_pow2_pos(149);
    lemma2_to64();
    vstd::arithmetic::power2::lemma2_to64_rest();
    lemma_pow2_adds(64, 149);
    assert(least * one <= n <= pow2(213)) by (nonlinear_arith)
        requires
            n == count as nat * one,
            least <= count <= pow2(64),
            one > 0,
            pow2(213) == pow2(64) * one,
    ;
    assert(pow2(213) * 1 == pow2(213));
    lemma_rounded_bounded(false, n, 1, 213);
    let magnitude = lemma_multiple(least, 149);
    lemma_nearest_exact(magnitude, 1);
    assert(units_of(magnitude) * 1 == least * one);
    law_nearest_keeps_order(least * one, n, 1);
    if magnitude < nearest(n, 1) {
        lemma_units_increase(magnitude, nearest(n, 1));
    }
    let d = units_of(divisor.magnitude());
    assert(d >= least * one);
    assert(least * one >= one) by (nonlinear_arith)
        requires
            least >= 1,
            one > 0,
    ;
    let u = units_of(x.magnitude());
    assert(u * one <= pow2(e) * d) by (nonlinear_arith)
        requires
            0 <= u <= least * pow2(e),
            least * one <= d,
            one > 0,
            pow2(e) >= 0,
    ;
    assert(divisor.magnitude() > 0);
    lemma_rounded_bounded(x.negative() != divisor.negative(), u * one, d, e);
}

proof fn lemma_corner_sum_within(triangles: Seq<Triangle>, e: nat)
    requires
        bounded_triangles(triangles, e),
        e + 24 <= top(),
    ensures
        ({
            let sum = corner_sum(triangles);
            let count = triangles.len() * 3;
            within_sum(sum.x, count, e) && within_sum(sum.y, count, e) && within_sum(
                sum.z,
                count,
                e,
            )
        }),
    decreases triangles.len(),
{
    if triangles.len() > 0 {
        let t = triangles.last();
        let before = triangles.drop_last();
        assert forall|i: int| 0 <= i < before.len() implies bounded_triangle(
            #[trigger] before[i],
            e,
        ) by {
            assert(bounded_triangle(triangles[i], e));
        }
        lemma_corner_sum_within(before, e);
        assert(bounded_triangle(triangles[triangles.len() - 1], e));
        let sum = corner_sum(before);
        let count = before.len() * 3;
        lemma_point_sum_grows(sum, t.a, count, e);
        lemma_point_sum_grows(sum.plus(t.a), t.b, count + 1, e);
        lemma_point_sum_grows(sum.plus(t.a).plus(t.b), t.c, count + 2, e);
    } else {
        assert(0 * pow2(e) == 0);
    }
}

/// The mean of corners is within their bound.
pub proof fn law_mean_is_within_bounds(triangles: Seq<Triangle>, e: nat)
    requires
        bounded_triangles(triangles, e),
        0 < triangles.len() * 3 <= u64::MAX,
        e + 24 <= top(),
    ensures
        bounded_point(mean_corner(triangles), e),
{
    let sum = corner_sum(triangles);
    let count = (triangles.len() * 3) as u64;
    lemma_corner_sum_within(triangles, e);
    lemma_mean_of_terms(sum.x, count, e);
    lemma_mean_of_terms(sum.y, count, e);
    lemma_mean_of_terms(sum.z, count, e);
}

spec fn moments_within(m: Moments, count: nat, e: nat) -> bool {
    &&& within_sum(m.xx, count, e)
    &&& within_sum(m.xy, count, e)
    &&& within_sum(m.xz, count, e)
    &&& within_sum(m.yy, count, e)
    &&& within_sum(m.yz, count, e)
    &&& within_sum(m.zz, count, e)
}

proof fn lemma_moments_grow(m: Moments, corner: Vec3, mean: Vec3, count: nat)
    requires
        moments_within(m, count, 191),
        bounded_point(corner, 169),
        bounded_point(mean, 169),
    ensures
        moments_within(m.with(corner.minus(mean)), count + 1, 191),
{
    let d = corner.minus(mean);
    lemma_sum_bounded(corner.x, mean.x, 169);
    lemma_sum_bounded(corner.y, mean.y, 169);
    lemma_sum_bounded(corner.z, mean.z, 169);
    lemma_product_bounded(d.x, d.x, 170, 170);
    lemma_product_bounded(d.x, d.y, 170, 170);
    lemma_product_bounded(d.x, d.z, 170, 170);
    lemma_product_bounded(d.y, d.y, 170, 170);
    lemma_product_bounded(d.y, d.z, 170, 170);
    lemma_product_bounded(d.z, d.z, 170, 170);
    lemma_sum_grows(m.xx, d.x.times(d.x), count, 191);
    lemma_sum_grows(m.xy, d.x.times(d.y), count, 191);
    lemma_sum_grows(m.xz, d.x.times(d.z), count, 191);
    lemma_sum_grows(m.yy, d.y.times(d.y), count, 191);
    lemma_sum_grows(m.yz, d.y.times(d.z), count, 191);
    lemma_sum_grows(m.zz, d.z.times(d.z), count, 191);
}

proof fn lemma_moments_within(triangles: Seq<Triangle>, mean: Vec3)
    requires
        bounded_triangles(triangles, 169),
        bounded_point(mean, 169),
    ensures
        moments_within(moments_about(triangles, mean), triangles.len() * 3, 191),
    decreases triangles.len(),
{
    if triangles.len() > 0 {
        let t = triangles.last();
        let before = triangles.drop_last();
        assert forall|i: int| 0 <= i < before.len() implies bounded_triangle(
            #[trigger] before[i],
            169,
        ) by {
            assert(bounded_triangle(triangles[i], 169));
        }
        lemma_moments_within(before, mean);
        assert(bounded_triangle(triangles[triangles.len() - 1], 169));
        let m = moments_about(before, mean);
        let count = before.len() * 3;
        lemma_moments_grow(m, t.a, mean, count);
        lemma_moments_grow(m.with(t.a.minus(mean)), t.b, mean, count + 1);
        lemma_moments_grow(m.with(t.a.minus(mean)).with(t.b.minus(mean)), t.c, mean, count + 2);
    } else {
        assert(0 * pow2(191) == 0);
    }
}

/// The covariance of corners within two to the twentieth.
pub(crate) proof fn lemma_covariance_bounded(triangles: Seq<Triangle>)
    requires
        bounded_triangles(triangles, 169),
        0 < triangles.len() * 3 <= u64::MAX,
    ensures
        bounded_basis(
            moments_about(triangles, mean_corner(triangles)).mean(corner_count(triangles)),
            191,
        ),
{
    let m = moments_about(triangles, mean_corner(triangles));
    let count = (triangles.len() * 3) as u64;
    law_mean_is_within_bounds(triangles, 169);
    lemma_moments_within(triangles, mean_corner(triangles));
    lemma_mean_of_terms(m.xx, count, 191);
    lemma_mean_of_terms(m.xy, count, 191);
    lemma_mean_of_terms(m.xz, count, 191);
    lemma_mean_of_terms(m.yy, count, 191);
    lemma_mean_of_terms(m.yz, count, 191);
    lemma_mean_of_terms(m.zz, count, 191);
}

/// Products of vectors with numbers, with vectors and with matrices.
pub(crate) proof fn lemma_scaled_bounded(v: Vec3, x: Binary32, e: nat, f: nat)
    requires
        bounded_point(v, e),
        bounded(x, f),
        149 <= e + f,
        e + f - 149 <= top(),
    ensures
        bounded_point(v.scaled(x), (e + f - 149) as nat),
{
    lemma_product_bounded(v.x, x, e, f);
    lemma_product_bounded(v.y, x, e, f);
    lemma_product_bounded(v.z, x, e, f);
}

pub(crate) proof fn lemma_point_sum_bounded(a: Vec3, b: Vec3, e: nat)
    requires
        bounded_point(a, e),
        bounded_point(b, e),
        e < top(),
    ensures
        bounded_point(a.plus(b), e + 1),
        bounded_point(a.minus(b), e + 1),
{
    lemma_sum_bounded(a.x, b.x, e);
    lemma_sum_bounded(a.y, b.y, e);
    lemma_sum_bounded(a.z, b.z, e);
}

pub(crate) proof fn lemma_looser_point(v: Vec3, e: nat, f: nat)
    requires
        bounded_point(v, e),
        e <= f,
    ensures
        bounded_point(v, f),
{
    lemma_looser(v.x, e, f);
    lemma_looser(v.y, e, f);
    lemma_looser(v.z, e, f);
}

pub(crate) proof fn lemma_image_bounded(m: Mat3, v: Vec3, e: nat)
    requires
        bounded_basis(m, e),
        bounded_point(v, 150),
        e + 3 <= top(),
    ensures
        bounded_point(m.apply(v), e + 3),
{
    lemma_scaled_bounded(m.x_axis, v.x, e, 150);
    lemma_scaled_bounded(m.y_axis, v.y, e, 150);
    lemma_scaled_bounded(m.z_axis, v.z, e, 150);
    lemma_point_sum_bounded(m.x_axis.scaled(v.x), m.y_axis.scaled(v.y), e + 1);
    lemma_looser_point(m.z_axis.scaled(v.z), e + 1, e + 2);
    lemma_point_sum_bounded(
        m.x_axis.scaled(v.x).plus(m.y_axis.scaled(v.y)),
        m.z_axis.scaled(v.z),
        e + 2,
    );
}

pub(crate) proof fn lemma_dot_bounded(a: Vec3, b: Vec3, e: nat, f: nat)
    requires
        bounded_point(a, e),
        bounded_point(b, f),
        149 <= e + f,
        e + f - 147 <= top(),
    ensures
        bounded(a.dot(b), (e + f - 147) as nat),
{
    let g = (e + f - 149) as nat;
    lemma_product_bounded(a.x, b.x, e, f);
    lemma_product_bounded(a.y, b.y, e, f);
    lemma_product_bounded(a.z, b.z, e, f);
    lemma_sum_bounded(a.x.times(b.x), a.y.times(b.y), g);
    lemma_looser(a.z.times(b.z), g, g + 1);
    lemma_sum_bounded(a.x.times(b.x).plus(a.y.times(b.y)), a.z.times(b.z), g + 1);
}

/// The matrix from which the second axis is taken.
pub(crate) proof fn lemma_deflated_bounded(m: Mat3, x: Vec3)
    requires
        bounded_basis(m, 191),
        bounded_point(x, 150),
    ensures
        bounded_basis(m.minus(outer_product(x, x).scaled(x.dot(m.apply(x)))), 200),
{
    lemma_image_bounded(m, x, 191);
    lemma_dot_bounded(x, m.apply(x), 150, 194);
    let strength = x.dot(m.apply(x));
    lemma_scaled_bounded(x, x.x, 150, 150);
    lemma_scaled_bounded(x, x.y, 150, 150);
    lemma_scaled_bounded(x, x.z, 150, 150);
    lemma_scaled_bounded(x.scaled(x.x), strength, 151, 197);
    lemma_scaled_bounded(x.scaled(x.y), strength, 151, 197);
    lemma_scaled_bounded(x.scaled(x.z), strength, 151, 197);
    lemma_looser_point(m.x_axis, 191, 199);
    lemma_looser_point(m.y_axis, 191, 199);
    lemma_looser_point(m.z_axis, 191, 199);
    lemma_point_sum_bounded(m.x_axis, x.scaled(x.x).scaled(strength), 199);
    lemma_point_sum_bounded(m.y_axis, x.scaled(x.y).scaled(strength), 199);
    lemma_point_sum_bounded(m.z_axis, x.scaled(x.z).scaled(strength), 199);
}

/// A corner as it is seen along bounded axes.
proof fn lemma_seen_bounded(v: Vec3, basis: Mat3, e: nat)
    requires
        bounded_point(v, e),
        bounded_basis(basis, 152),
        e + 5 <= top(),
    ensures
        bounded_point(basis.apply(v), e + 5),
{
    let (x, y, z) = (basis.x_axis, basis.y_axis, basis.z_axis);
    lemma_row_bounded(x.x, y.x, z.x, v, e);
    lemma_row_bounded(x.y, y.y, z.y, v, e);
    lemma_row_bounded(x.z, y.z, z.z, v, e);
}

proof fn lemma_row_bounded(a: Binary32, b: Binary32, c: Binary32, v: Vec3, e: nat)
    requires
        bounded_point(v, e),
        bounded(a, 152),
        bounded(b, 152),
        bounded(c, 152),
        e + 5 <= top(),
    ensures
        bounded(a.times(v.x).plus(b.times(v.y)).plus(c.times(v.z)), e + 5),
{
    lemma_product_bounded(a, v.x, 152, e);
    lemma_product_bounded(b, v.y, 152, e);
    lemma_product_bounded(c, v.z, 152, e);
    lemma_sum_bounded(a.times(v.x), b.times(v.y), e + 3);
    lemma_looser(c.times(v.z), e + 3, e + 4);
    lemma_sum_bounded(a.times(v.x).plus(b.times(v.y)), c.times(v.z), e + 4);
}

proof fn lemma_extremes_bounded(triangles: Seq<Triangle>, inverse: Mat3, mean: Vec3, e: nat)
    requires
        triangles.len() > 0,
        forall|i: int, corner: Vec3|
            0 <= i < triangles.len() && #[trigger] is_corner(triangles[i], corner)
                ==> bounded_point(inverse.apply(corner.minus(mean)), e),
    ensures
        bounded_point(lowest(triangles, inverse, mean), e),
        bounded_point(highest(triangles, inverse, mean), e),
    decreases triangles.len(),
{
    reveal(Binary32::spec_lt);
    let t = triangles.last();
    let last = triangles.len() - 1;
    let before = triangles.drop_last();
    assert(is_corner(triangles[last], t.a));
    assert(is_corner(triangles[last], t.b));
    assert(is_corner(triangles[last], t.c));
    if before.len() > 0 {
        assert forall|i: int, corner: Vec3|
            0 <= i < before.len() && #[trigger] is_corner(before[i], corner) implies bounded_point(
            inverse.apply(corner.minus(mean)),
            e,
        ) by {
            assert(is_corner(triangles[i], corner));
        }
        lemma_extremes_bounded(before, inverse, mean, e);
    } else {
        let seen = inverse.apply(t.a.minus(mean));
        lemma_below_infinity(seen.x);
        lemma_below_infinity(seen.y);
        lemma_below_infinity(seen.z);
        assert(lowest(before, inverse, mean).least(seen) == seen);
        assert(highest(before, inverse, mean).greatest(seen) == seen);
    }
}

/// Finite numbers lie between the infinities.
pub(crate) proof fn lemma_below_infinity(x: Binary32)
    requires
        x.is_finite(),
    ensures
        !Binary32::of(INFINITY).lt(x),
        !x.lt(Binary32::of(NEG_INFINITY)),
{
    reveal(Binary32::spec_lt);
    lemma_units_increase(x.magnitude(), INFINITE as nat);
    lemma_units_at_least(x.magnitude());
}

/// Bounded corners are measurable along bounded axes: coordinates may be as
/// great as two to the ninetieth, and those of the axes as great as eight.
pub proof fn law_bounded_corners_are_measurable(triangles: Seq<Triangle>, basis: Mat3)
    requires
        0 < triangles.len() * 3 <= u64::MAX,
        bounded_triangles(triangles, 239),
        bounded_basis(basis, 152),
    ensures
        measurable(triangles, basis),
{
    let mean = mean_corner(triangles);
    let inverse = basis.transpose();
    law_mean_is_within_bounds(triangles, 239);
    assert(bounded_basis(inverse, 152));
    assert forall|i: int, corner: Vec3|
        0 <= i < triangles.len() && #[trigger] is_corner(triangles[i], corner) implies bounded_point(
        inverse.apply(corner.minus(mean)),
        245,
    ) by {
        assert(bounded_triangle(triangles[i], 239));
        lemma_point_sum_bounded(corner, mean, 239);
        lemma_seen_bounded(corner.minus(mean), inverse, 240);
    }
    lemma_extremes_bounded(triangles, inverse, mean, 245);
    let low = lowest(triangles, inverse, mean);
    let high = highest(triangles, inverse, mean);
    lemma_point_sum_bounded(low, high, 245);
    lemma_point_sum_bounded(high, low, 245);
}

} // verus!
