//! The mean of corners and how they scatter, compared with the exact values.
use crate::axes::lemma_coordinate_axes;
use crate::binary32::{Binary32, ZERO};
use crate::directions::{
    lemma_nearly_unit_coordinates, lemma_product_size, lemma_sizes_add, lemma_square_size,
    lemma_times_difference, lemma_times_three, lemma_within,
};
use crate::fitting::{
    corner_count, corner_sum, mean_corner, moments_about, principal_basis, refined, Moments,
};
use crate::parting::{point_within, triangle_within};
use crate::scatter::{
    cost_of_rounds, law_refined_direction_is_stretched, law_refining_does_not_lose,
    lemma_dot_of_difference, lemma_dot_turned, lemma_dot_within, lemma_image_within,
    lemma_longer_reaches, refinable, symmetric, Six, Three,
};
use crate::triangle::Triangle;
use crate::value::{
    large, law_value_of_count, law_value_of_product, law_value_of_quotient, law_value_of_sum,
    law_values_of_constants, lemma_one_in_units, near, part, size, unit, value,
};
use crate::vector::{Mat3, Vec3};
use vstd::prelude::*;

verus! {

/// The exact sum of all corners.
pub open spec fn sum_of_corners(triangles: Seq<Triangle>) -> Three
    decreases triangles.len(),
{
    if triangles.len() == 0 {
        Three { x: 0real, y: 0real, z: 0real }
    } else {
        let t = triangles.last();
        sum_of_corners(triangles.drop_last()).plus(Three::of(t.a)).plus(Three::of(t.b)).plus(
            Three::of(t.c),
        )
    }
}

/// The number of corners.
pub open spec fn corners(triangles: Seq<Triangle>) -> real {
    (3 * triangles.len()) as real
}

/// The exact mean of all corners.
pub open spec fn exact_mean(triangles: Seq<Triangle>) -> Three {
    let (sum, n) = (sum_of_corners(triangles), corners(triangles));
    Three { x: sum.x / n, y: sum.y / n, z: sum.z / n }
}

/// The products of the coordinates of a vector with each other.
pub open spec fn products_of(v: Three) -> Six {
    Six {
        a: v.x * v.x,
        b: v.x * v.y,
        c: v.x * v.z,
        d: v.y * v.y,
        e: v.y * v.z,
        f: v.z * v.z,
    }
}

/// The products of the coordinates of all corners, seen from a point.
pub open spec fn sum_of_products(triangles: Seq<Triangle>, from: Three) -> Six
    decreases triangles.len(),
{
    if triangles.len() == 0 {
        Six { a: 0real, b: 0real, c: 0real, d: 0real, e: 0real, f: 0real }
    } else {
        let t = triangles.last();
        sum_of_products(triangles.drop_last(), from).plus(
            products_of(Three::of(t.a).minus(from)),
        ).plus(products_of(Three::of(t.b).minus(from))).plus(
            products_of(Three::of(t.c).minus(from)),
        )
    }
}

/// How the corners scatter about a point: the means of the products of their
/// coordinates.
pub open spec fn exact_scatter(triangles: Seq<Triangle>, from: Three) -> Six {
    let (sum, n) = (sum_of_products(triangles, from), corners(triangles));
    Six { a: sum.a / n, b: sum.b / n, c: sum.c / n, d: sum.d / n, e: sum.e / n, f: sum.f / n }
}

/// Whether all corners are finite and no coordinate greater than a bound.
pub open spec fn triangles_within(triangles: Seq<Triangle>, bound: real) -> bool {
    forall|i: int| 0 <= i < triangles.len() ==> triangle_within(#[trigger] triangles[i], bound)
}

/// A sum that is computed term by term, after `k` terms of no more than `n`. No
/// term is greater than `most`, and none is off by more than `off`.
spec fn summed(sum: Binary32, exact: real, k: real, n: real, most: real, off: real) -> bool {
    &&& near(sum, exact, k * (off + 4real * (n * part(most))))
    &&& size(exact) <= k * most
}

/// Whether the terms of a sum and their number are not too great.
spec fn summable(n: real, most: real, off: real) -> bool {
    &&& 0real <= off <= most / 2real
    &&& 1real <= n <= 2097152real
    &&& 0real < most <= large() / 16777216real
}

proof fn lemma_product_of_parts(n: real, most: real)
    requires
        1real <= n <= 2097152real,
        most > 0real,
    ensures
        n * part(most) <= most / 8real,
        n * part(most) == part(n * most),
        n * most <= 2097152real * most,
        most <= n * most,
        n * part(most) >= 0real,
{
    assert(n * part(most) == part(n * most)) by (nonlinear_arith);
    assert(n * most <= 2097152real * most && most <= n * most) by (nonlinear_arith)
        requires
            1real <= n <= 2097152real,
            most > 0real,
    ;
}

proof fn lemma_multiples(k: real, n: real, x: real)
    requires
        0real <= k <= n,
        x >= 0real,
    ensures
        0real <= k * x <= n * x,
        (k + 1real) * x == k * x + x,
{
    assert(0real <= k * x <= n * x) by (nonlinear_arith)
        requires
            0real <= k <= n,
            x >= 0real,
    ;
    assert((k + 1real) * x == k * x + x) by (nonlinear_arith);
}

/// One more term.
#[verifier::rlimit(50)]
proof fn lemma_term_added(
    sum: Binary32,
    term: Binary32,
    exact: real,
    x: real,
    k: real,
    n: real,
    most: real,
    off: real,
)
    requires
        summable(n, most, off),
        summed(sum, exact, k, n, most, off),
        0real <= k,
        k + 1real <= n,
        near(term, x, off),
        size(x) <= most,
    ensures
        summed(sum.plus(term), exact + x, k + 1real, n, most, off),
{
    lemma_product_of_parts(n, most);
    let share = off + 4real * (n * part(most));
    lemma_multiples(k, n, most);
    lemma_multiples(k, n, share);
    lemma_multiples(k, n, most - share);
    assert(k * (most - share) == k * most - k * share) by (nonlinear_arith);
    let (s, t) = (value(sum), value(term));
    lemma_within(exact, s, k * most, k * share);
    lemma_within(x, t, most, off);
    lemma_sizes_add(s, t);
    lemma_sizes_add(exact, x);
    assert(n * most >= k * most + most) by {
        lemma_multiples(k + 1real, n, most);
    }
    assert(size(s + t) <= 2real * (n * most));
    law_value_of_sum(sum, term);
    let z = value(sum.plus(term));
    assert(size(z - (s + t)) <= 2real * (n * part(most)));
    lemma_sizes_add(s - exact, t - x);
    lemma_sizes_add(z - (s + t), (s - exact) + (t - x));
}

/// The sum divided by the number of its terms.
#[verifier::rlimit(50)]
proof fn lemma_sum_divided(
    sum: Binary32,
    count: u64,
    exact: real,
    n: real,
    most: real,
    off: real,
)
    requires
        summable(n, most, off),
        summed(sum, exact, n, n, most, off),
        n == count as real,
        1 <= count,
    ensures
        near(
            sum.over(Binary32::from_count(count)),
            exact / n,
            off + 4real * (n * part(most)) + 2real * part(most) + unit(),
        ),
        size(exact / n) <= most,
{
    lemma_one_in_units();
    law_value_of_count(count);
    lemma_product_of_parts(n, most);
    let share = off + 4real * (n * part(most));
    let s = value(sum);
    lemma_divided(s, exact, n, share, most);
    lemma_within(exact / n, s / n, most, share);
    let divisor = Binary32::from_count(count);
    assert(s / value(divisor) == s / n);
    law_value_of_quotient(sum, divisor);
    let z = value(sum.over(divisor));
    lemma_sizes_add(z - s / n, s / n - exact / n);
}

proof fn lemma_divided(s: real, exact: real, n: real, share: real, most: real)
    requires
        n >= 1real,
        size(s - exact) <= n * share,
        size(exact) <= n * most,
    ensures
        size(s / n - exact / n) <= share,
        size(exact / n) <= most,
{
    lemma_size_divided(s - exact, n, share);
    lemma_size_divided(exact, n, most);
    assert((s - exact) / n == s / n - exact / n) by (nonlinear_arith)
        requires
            n >= 1real,
    ;
}

proof fn lemma_size_divided(x: real, n: real, most: real)
    requires
        n >= 1real,
        size(x) <= n * most,
    ensures
        size(x / n) <= most,
{
    let y = x / n;
    assert(y * n == x) by (nonlinear_arith)
        requires
            y == x / n,
            n >= 1real,
    ;
    assert(y <= most && -y <= most) by (nonlinear_arith)
        requires
            y * n <= n * most,
            -(y * n) <= n * most,
            n >= 1real,
    ;
}

proof fn lemma_shorter_within(triangles: Seq<Triangle>, bound: real)
    requires
        triangles_within(triangles, bound),
        triangles.len() > 0,
    ensures
        triangles_within(triangles.drop_last(), bound),
        triangle_within(triangles.last(), bound),
{
    let shorter = triangles.drop_last();
    assert forall|i: int| 0 <= i < shorter.len() implies triangle_within(
        #[trigger] shorter[i],
        bound,
    ) by {
        assert(triangle_within(triangles[i], bound));
    }
    assert(triangle_within(triangles[triangles.len() - 1], bound));
}

spec fn point_summed(sum: Vec3, exact: Three, k: real, n: real, most: real) -> bool {
    &&& summed(sum.x, exact.x, k, n, most, 0real)
    &&& summed(sum.y, exact.y, k, n, most, 0real)
    &&& summed(sum.z, exact.z, k, n, most, 0real)
}

proof fn lemma_corner_added(sum: Vec3, corner: Vec3, exact: Three, k: real, n: real, most: real)
    requires
        summable(n, most, 0real),
        point_summed(sum, exact, k, n, most),
        0real <= k,
        k + 1real <= n,
        point_within(corner, most),
    ensures
        point_summed(sum.plus(corner), exact.plus(Three::of(corner)), k + 1real, n, most),
{
    lemma_term_added(sum.x, corner.x, exact.x, value(corner.x), k, n, most, 0real);
    lemma_term_added(sum.y, corner.y, exact.y, value(corner.y), k, n, most, 0real);
    lemma_term_added(sum.z, corner.z, exact.z, value(corner.z), k, n, most, 0real);
}

proof fn lemma_no_terms(n: real, most: real, off: real)
    requires
        summable(n, most, off),
    ensures
        summed(Binary32::of(ZERO), 0real, 0real, n, most, off),
{
    law_values_of_constants();
    let share = off + 4real * (n * part(most));
    assert(0real * share == 0real && 0real * most == 0real) by (nonlinear_arith);
}

proof fn lemma_corners_summed(triangles: Seq<Triangle>, n: real, bound: real)
    requires
        summable(n, bound, 0real),
        triangles_within(triangles, bound),
        corners(triangles) <= n,
    ensures
        point_summed(
            corner_sum(triangles),
            sum_of_corners(triangles),
            corners(triangles),
            n,
            bound,
        ),
    decreases triangles.len(),
{
    if triangles.len() == 0 {
        lemma_no_terms(n, bound, 0real);
    } else {
        let (shorter, t) = (triangles.drop_last(), triangles.last());
        lemma_shorter_within(triangles, bound);
        lemma_corners_summed(shorter, n, bound);
        let k = corners(shorter);
        let (sum, exact) = (corner_sum(shorter), sum_of_corners(shorter));
        lemma_corner_added(sum, t.a, exact, k, n, bound);
        let exact = exact.plus(Three::of(t.a));
        lemma_corner_added(sum.plus(t.a), t.b, exact, k + 1real, n, bound);
        let exact = exact.plus(Three::of(t.b));
        lemma_corner_added(sum.plus(t.a).plus(t.b), t.c, exact, k + 2real, n, bound);
        assert(corners(triangles) == k + 3real);
    }
}

/// Whether a vector is finite and off by no more than an error.
pub open spec fn near_point(v: Vec3, exact: Three, error: real) -> bool {
    near(v.x, exact.x, error) && near(v.y, exact.y, error) && near(v.z, exact.z, error)
}

/// The mean that boxes are fitted about is the mean of all corners, each counted
/// once, but for rounding.
pub proof fn law_mean_is_nearly_exact(triangles: Seq<Triangle>, bound: real)
    requires
        0 < triangles.len() * 3 <= 2097152,
        triangles_within(triangles, bound),
        0real < bound <= large() / 16777216real,
    ensures
        near_point(
            mean_corner(triangles),
            exact_mean(triangles),
            6real * (corners(triangles) * part(bound)) + unit(),
        ),
        exact_mean(triangles).within(bound),
{
    let n = corners(triangles);
    lemma_corners_summed(triangles, n, bound);
    lemma_product_of_parts(n, bound);
    let (sum, exact) = (corner_sum(triangles), sum_of_corners(triangles));
    let count = (triangles.len() * 3) as u64;
    lemma_sum_divided(sum.x, count, exact.x, n, bound, 0real);
    lemma_sum_divided(sum.y, count, exact.y, n, bound, 0real);
    lemma_sum_divided(sum.z, count, exact.z, n, bound, 0real);
}

/// A product of deviations.
#[verifier::rlimit(50)]
proof fn lemma_product_of_deviations(
    c: Binary32,
    m: Binary32,
    e: Binary32,
    k: Binary32,
    bound: real,
    square: real,
)
    requires
        c.is_finite() && m.is_finite() && e.is_finite() && k.is_finite(),
        size(value(c)) <= bound && size(value(e)) <= bound,
        size(value(m)) <= 2real * bound && size(value(k)) <= 2real * bound,
        0real < bound <= 1152921504606846976real,
        square == bound * bound,
    ensures
        near(
            c.minus(m).times(e.minus(k)),
            (value(c) - value(m)) * (value(e) - value(k)),
            32real * part(square) + unit(),
        ),
        size((value(c) - value(m)) * (value(e) - value(k))) <= 10real * square,
{
    lemma_one_in_units();
    let (x, y) = (value(c) - value(m), value(e) - value(k));
    law_value_of_sum(c, m);
    law_value_of_sum(e, k);
    let (f, g) = (value(c.minus(m)), value(e.minus(k)));
    let p = 3real * part(bound);
    let (three, more) = (3real * bound, 31real * bound / 10real);
    lemma_within(x, f, three, p);
    lemma_within(y, g, three, p);
    lemma_product_size(f, g - y, more, p);
    lemma_product_size(f - x, y, p, three);
    lemma_product_size(f, g, more, more);
    lemma_product_size(x, y, three, three);
    lemma_bound_products(bound, square);
    assert(square <= 1329227995784915872903807060280344576real) by (nonlinear_arith)
        requires
            square == bound * bound,
            0real < bound <= 1152921504606846976real,
    ;
    lemma_times_difference(f, x, y);
    assert(f * (g - y) == f * g - f * y) by (nonlinear_arith);
    assert(f * g - x * y == f * (g - y) + (f - x) * y);
    law_value_of_product(c.minus(m), e.minus(k));
    let z = value(c.minus(m).times(e.minus(k)));
    lemma_sizes_add(f * (g - y), (f - x) * y);
    lemma_sizes_add(z - f * g, f * g - x * y);
}

proof fn lemma_bound_products(bound: real, square: real)
    requires
        square == bound * bound,
    ensures
        (31real * bound / 10real) * (3real * part(bound)) == 93real * part(square) / 10real,
        (3real * part(bound)) * (3real * bound) == 9real * part(square),
        (31real * bound / 10real) * (31real * bound / 10real) == 961real * square / 100real,
        (3real * bound) * (3real * bound) == 9real * square,
{
    assert((31real * bound / 10real) * (3real * part(bound)) == 93real * part(square) / 10real)
        by (nonlinear_arith)
        requires
            square == bound * bound,
    ;
    assert((3real * part(bound)) * (3real * bound) == 9real * part(square)) by (nonlinear_arith)
        requires
            square == bound * bound,
    ;
    assert((31real * bound / 10real) * (31real * bound / 10real) == 961real * square / 100real)
        by (nonlinear_arith)
        requires
            square == bound * bound,
    ;
    assert((3real * bound) * (3real * bound) == 9real * square) by (nonlinear_arith)
        requires
            square == bound * bound,
    ;
}

spec fn six_summed(m: Moments, exact: Six, k: real, n: real, most: real, off: real) -> bool {
    &&& summed(m.xx, exact.a, k, n, most, off)
    &&& summed(m.xy, exact.b, k, n, most, off)
    &&& summed(m.xz, exact.c, k, n, most, off)
    &&& summed(m.yy, exact.d, k, n, most, off)
    &&& summed(m.yz, exact.e, k, n, most, off)
    &&& summed(m.zz, exact.f, k, n, most, off)
}

proof fn lemma_deviation_added(
    m: Moments,
    c: Vec3,
    mean: Vec3,
    exact: Six,
    k: real,
    n: real,
    bound: real,
    square: real,
)
    requires
        square == bound * bound,
        summable(n, 10real * square, 32real * part(square) + unit()),
        six_summed(m, exact, k, n, 10real * square, 32real * part(square) + unit()),
        0real <= k,
        k + 1real <= n,
        0real < bound <= 1152921504606846976real,
        point_within(c, bound),
        point_within(mean, 2real * bound),
    ensures
        six_summed(
            m.with(c.minus(mean)),
            exact.plus(products_of(Three::of(c).minus(Three::of(mean)))),
            k + 1real,
            n,
            10real * square,
            32real * part(square) + unit(),
        ),
{
    let d = c.minus(mean);
    let v = Three::of(c).minus(Three::of(mean));
    let (most, off) = (10real * square, 32real * part(square) + unit());
    lemma_product_of_deviations(c.x, mean.x, c.x, mean.x, bound, square);
    lemma_product_of_deviations(c.x, mean.x, c.y, mean.y, bound, square);
    lemma_product_of_deviations(c.x, mean.x, c.z, mean.z, bound, square);
    lemma_product_of_deviations(c.y, mean.y, c.y, mean.y, bound, square);
    lemma_product_of_deviations(c.y, mean.y, c.z, mean.z, bound, square);
    lemma_product_of_deviations(c.z, mean.z, c.z, mean.z, bound, square);
    lemma_term_added(m.xx, d.x.times(d.x), exact.a, v.x * v.x, k, n, most, off);
    lemma_term_added(m.xy, d.x.times(d.y), exact.b, v.x * v.y, k, n, most, off);
    lemma_term_added(m.xz, d.x.times(d.z), exact.c, v.x * v.z, k, n, most, off);
    lemma_term_added(m.yy, d.y.times(d.y), exact.d, v.y * v.y, k, n, most, off);
    lemma_term_added(m.yz, d.y.times(d.z), exact.e, v.y * v.z, k, n, most, off);
    lemma_term_added(m.zz, d.z.times(d.z), exact.f, v.z * v.z, k, n, most, off);
}

proof fn lemma_products_summed(
    triangles: Seq<Triangle>,
    mean: Vec3,
    n: real,
    bound: real,
    square: real,
)
    requires
        square == bound * bound,
        summable(n, 10real * square, 32real * part(square) + unit()),
        0real < bound <= 1152921504606846976real,
        triangles_within(triangles, bound),
        point_within(mean, 2real * bound),
        corners(triangles) <= n,
    ensures
        six_summed(
            moments_about(triangles, mean),
            sum_of_products(triangles, Three::of(mean)),
            corners(triangles),
            n,
            10real * square,
            32real * part(square) + unit(),
        ),
    decreases triangles.len(),
{
    if triangles.len() == 0 {
        lemma_no_terms(n, 10real * square, 32real * part(square) + unit());
    } else {
        let (shorter, t) = (triangles.drop_last(), triangles.last());
        lemma_shorter_within(triangles, bound);
        lemma_products_summed(shorter, mean, n, bound, square);
        let k = corners(shorter);
        let from = Three::of(mean);
        let (m, exact) = (moments_about(shorter, mean), sum_of_products(shorter, from));
        lemma_deviation_added(m, t.a, mean, exact, k, n, bound, square);
        let exact = exact.plus(products_of(Three::of(t.a).minus(from)));
        let m = m.with(t.a.minus(mean));
        lemma_deviation_added(m, t.b, mean, exact, k + 1real, n, bound, square);
        let exact = exact.plus(products_of(Three::of(t.b).minus(from)));
        let m = m.with(t.b.minus(mean));
        lemma_deviation_added(m, t.c, mean, exact, k + 2real, n, bound, square);
        assert(corners(triangles) == k + 3real);
    }
}

/// Whether a matrix is finite, symmetric, and off by no more than an error.
pub open spec fn near_matrix(m: Mat3, exact: Six, error: real) -> bool {
    &&& symmetric(m)
    &&& near(m.x_axis.x, exact.a, error)
    &&& near(m.x_axis.y, exact.b, error)
    &&& near(m.x_axis.z, exact.c, error)
    &&& near(m.y_axis.y, exact.d, error)
    &&& near(m.y_axis.z, exact.e, error)
    &&& near(m.z_axis.z, exact.f, error)
}

/// The matrix by which the corners scatter.
pub open spec fn scatter_matrix(triangles: Seq<Triangle>) -> Mat3 {
    moments_about(triangles, mean_corner(triangles)).mean(corner_count(triangles))
}

/// How far the entries of that matrix may be off for so many corners.
pub open spec fn scatter_error(triangles: Seq<Triangle>, bound: real) -> real {
    96real * (corners(triangles) * part(bound * bound))
}

proof fn lemma_bound_is_moderate(bound: real, n: real)
    requires
        1real / 1024real <= bound <= 562949953421312real,
        3real <= n <= 2097152real,
    ensures
        1real / 1048576real <= bound * bound <= 316912650057057350374175801344real,
        summable(n, 10real * (bound * bound), 32real * part(bound * bound) + unit()),
        summable(n, bound, 0real),
        6real * (n * part(bound)) + unit() <= bound,
{
    lemma_one_in_units();
    let square = bound * bound;
    assert(1real / 1048576real <= square <= 316912650057057350374175801344real)
        by (nonlinear_arith)
        requires
            1real / 1024real <= bound <= 562949953421312real,
            square == bound * bound,
    ;
    lemma_product_of_parts(n, bound);
}

/// The matrix that the axes of boxes are taken from is symmetric and holds the
/// means of the products of all corners' ways from the mean, but for rounding.
#[verifier::rlimit(50)]
pub proof fn law_scatter_is_nearly_exact(triangles: Seq<Triangle>, bound: real)
    requires
        0 < triangles.len() * 3 <= 2097152,
        triangles_within(triangles, bound),
        1real / 1024real <= bound <= 562949953421312real,
    ensures
        point_within(mean_corner(triangles), 2real * bound),
        near_matrix(
            scatter_matrix(triangles),
            exact_scatter(triangles, Three::of(mean_corner(triangles))),
            scatter_error(triangles, bound),
        ),
        exact_scatter(triangles, Three::of(mean_corner(triangles))).within(
            10real * (bound * bound),
        ),
{
    lemma_one_in_units();
    let n = corners(triangles);
    lemma_bound_is_moderate(bound, n);
    law_mean_is_nearly_exact(triangles, bound);
    let mean = mean_corner(triangles);
    let exact = exact_mean(triangles);
    lemma_within(exact.x, value(mean.x), bound, bound);
    lemma_within(exact.y, value(mean.y), bound, bound);
    lemma_within(exact.z, value(mean.z), bound, bound);
    let square = bound * bound;
    let (most, off) = (10real * square, 32real * part(square) + unit());
    lemma_products_summed(triangles, mean, n, bound, square);
    lemma_product_of_parts(n, most);
    lemma_product_of_parts(n, square);
    assert(n * part(most) == 10real * (n * part(square))) by (nonlinear_arith)
        requires
            most == 10real * square,
    ;
    assert(part(square) <= n * part(square)) by (nonlinear_arith)
        requires
            n >= 1real,
            square > 0real,
    ;
    assert(n * part(square) >= 3real * part(square)) by (nonlinear_arith)
        requires
            n >= 3real,
            square > 0real,
    ;
    let m = moments_about(triangles, mean);
    let sum = sum_of_products(triangles, Three::of(mean));
    let count = (triangles.len() * 3) as u64;
    lemma_sum_divided(m.xx, count, sum.a, n, most, off);
    lemma_sum_divided(m.xy, count, sum.b, n, most, off);
    lemma_sum_divided(m.xz, count, sum.c, n, most, off);
    lemma_sum_divided(m.yy, count, sum.d, n, most, off);
    lemma_sum_divided(m.yz, count, sum.e, n, most, off);
    lemma_sum_divided(m.zz, count, sum.f, n, most, off);
}

proof fn lemma_row_of_products(x: real, d: Three, u: Three)
    ensures
        (x * d.x) * u.x + (x * d.y) * u.y + (x * d.z) * u.z == x * d.dot(u),
{
    lemma_grouped(x, d.x, u.x);
    lemma_grouped(x, d.y, u.y);
    lemma_grouped(x, d.z, u.z);
    let (p, q, r) = (d.x * u.x, d.y * u.y, d.z * u.z);
    assert(x * (p + q + r) == x * p + x * q + x * r) by (nonlinear_arith);
}

proof fn lemma_grouped(x: real, y: real, z: real)
    ensures
        (x * y) * z == x * (y * z),
        (x * y) * z == (y * x) * z,
{
    assert((x * y) * z == x * (y * z)) by (nonlinear_arith);
    assert((x * y) * z == (y * x) * z) by (nonlinear_arith);
}

/// A vector's products stretch another one by the square of the way of one along
/// the other.
proof fn lemma_stretch_of_products(d: Three, u: Three)
    ensures
        products_of(d).stretch(u) == d.dot(u) * d.dot(u),
        products_of(d).stretch(u) >= 0real,
{
    let s = d.dot(u);
    let g = products_of(d).image(u);
    lemma_row_of_products(d.x, d, u);
    lemma_row_of_products(d.y, d, u);
    lemma_row_of_products(d.z, d, u);
    lemma_grouped(d.x, d.y, u.x);
    lemma_grouped(d.x, d.z, u.x);
    lemma_grouped(d.y, d.z, u.y);
    assert(g.x == d.x * s && g.y == d.y * s && g.z == d.z * s);
    assert(u.x * (d.x * s) == (d.x * u.x) * s) by (nonlinear_arith);
    assert(u.y * (d.y * s) == (d.y * u.y) * s) by (nonlinear_arith);
    assert(u.z * (d.z * s) == (d.z * u.z) * s) by (nonlinear_arith);
    lemma_times_three(d.x * u.x, d.y * u.y, d.z * u.z, s);
    assert(s * s >= 0real) by (nonlinear_arith);
}

proof fn lemma_stretch_of_sum(m: Six, n: Six, u: Three)
    ensures
        m.plus(n).stretch(u) == m.stretch(u) + n.stretch(u),
        m.plus(n).image(u) == m.image(u).plus(n.image(u)),
{
    lemma_times_difference(m.a, n.a, u.x);
    lemma_times_difference(m.b, n.b, u.x);
    lemma_times_difference(m.c, n.c, u.x);
    lemma_times_difference(m.b, n.b, u.y);
    lemma_times_difference(m.d, n.d, u.y);
    lemma_times_difference(m.e, n.e, u.y);
    lemma_times_difference(m.c, n.c, u.z);
    lemma_times_difference(m.e, n.e, u.z);
    lemma_times_difference(m.f, n.f, u.z);
    let (p, q) = (m.image(u), n.image(u));
    lemma_left_sum(u.x, p.x, q.x);
    lemma_left_sum(u.y, p.y, q.y);
    lemma_left_sum(u.z, p.z, q.z);
}

proof fn lemma_left_sum(x: real, p: real, q: real)
    ensures
        x * (p + q) == x * p + x * q,
{
    assert(x * (p + q) == x * p + x * q) by (nonlinear_arith);
}

/// The squares of the ways that all corners lie along a direction, seen from a
/// point, summed up.
pub open spec fn squares_along(triangles: Seq<Triangle>, from: Three, u: Three) -> real
    decreases triangles.len(),
{
    if triangles.len() == 0 {
        0real
    } else {
        let t = triangles.last();
        let (a, b, c) = (
            Three::of(t.a).minus(from).dot(u),
            Three::of(t.b).minus(from).dot(u),
            Three::of(t.c).minus(from).dot(u),
        );
        squares_along(triangles.drop_last(), from, u) + a * a + b * b + c * c
    }
}

proof fn lemma_sum_keeps_side(triangles: Seq<Triangle>, from: Three, u: Three)
    ensures
        sum_of_products(triangles, from).stretch(u) == squares_along(triangles, from, u),
        squares_along(triangles, from, u) >= 0real,
    decreases triangles.len(),
{
    if triangles.len() == 0 {
        assert(0real * u.x == 0real && 0real * u.y == 0real && 0real * u.z == 0real);
        assert(u.x * 0real == 0real && u.y * 0real == 0real && u.z * 0real == 0real);
    } else {
        let (shorter, t) = (triangles.drop_last(), triangles.last());
        lemma_sum_keeps_side(shorter, from, u);
        let (a, b, c) = (
            products_of(Three::of(t.a).minus(from)),
            products_of(Three::of(t.b).minus(from)),
            products_of(Three::of(t.c).minus(from)),
        );
        lemma_stretch_of_products(Three::of(t.a).minus(from), u);
        lemma_stretch_of_products(Three::of(t.b).minus(from), u);
        lemma_stretch_of_products(Three::of(t.c).minus(from), u);
        let sum = sum_of_products(shorter, from);
        lemma_stretch_of_sum(sum, a, u);
        lemma_stretch_of_sum(sum.plus(a), b, u);
        lemma_stretch_of_sum(sum.plus(a).plus(b), c, u);
    }
}

proof fn lemma_stretch_divided(sum: Six, m: Six, n: real, u: Three)
    requires
        n >= 1real,
        sum.a == n * m.a && sum.b == n * m.b && sum.c == n * m.c,
        sum.d == n * m.d && sum.e == n * m.e && sum.f == n * m.f,
    ensures
        n * m.stretch(u) == sum.stretch(u),
{
    lemma_row_scaled(n, m.a, m.b, m.c, u);
    lemma_row_scaled(n, m.b, m.d, m.e, u);
    lemma_row_scaled(n, m.c, m.e, m.f, u);
    let g = m.image(u);
    assert(sum.image(u) == g.scaled(n));
    assert(u.x * (n * g.x) == n * (u.x * g.x)) by (nonlinear_arith);
    assert(u.y * (n * g.y) == n * (u.y * g.y)) by (nonlinear_arith);
    assert(u.z * (n * g.z) == n * (u.z * g.z)) by (nonlinear_arith);
    lemma_left_sum(n, u.x * g.x + u.y * g.y, u.z * g.z);
    lemma_left_sum(n, u.x * g.x, u.y * g.y);
}

proof fn lemma_row_scaled(n: real, a: real, b: real, c: real, u: Three)
    ensures
        (n * a) * u.x + (n * b) * u.y + (n * c) * u.z == n * (a * u.x + b * u.y + c * u.z),
{
    lemma_grouped(n, a, u.x);
    lemma_grouped(n, b, u.y);
    lemma_grouped(n, c, u.z);
    lemma_left_sum(n, a * u.x + b * u.y, c * u.z);
    lemma_left_sum(n, a * u.x, b * u.y);
}

proof fn lemma_quotient(x: real, n: real)
    requires
        n >= 1real,
    ensures
        x == n * (x / n),
{
    assert(x == n * (x / n)) by (nonlinear_arith)
        requires
            n >= 1real,
    ;
}

/// A direction is stretched by the mean square of the ways that the corners lie
/// along it.
pub proof fn law_stretch_is_the_mean_square(triangles: Seq<Triangle>, from: Three, u: Three)
    requires
        triangles.len() > 0,
    ensures
        corners(triangles) * exact_scatter(triangles, from).stretch(u) == squares_along(
            triangles,
            from,
            u,
        ),
        exact_scatter(triangles, from).stretch(u) >= 0real,
{
    let (sum, n) = (sum_of_products(triangles, from), corners(triangles));
    let m = exact_scatter(triangles, from);
    lemma_sum_keeps_side(triangles, from, u);
    lemma_quotient(sum.a, n);
    lemma_quotient(sum.b, n);
    lemma_quotient(sum.c, n);
    lemma_quotient(sum.d, n);
    lemma_quotient(sum.e, n);
    lemma_quotient(sum.f, n);
    lemma_stretch_divided(sum, m, n, u);
    let s = m.stretch(u);
    assert(s >= 0real) by (nonlinear_arith)
        requires
            n * s >= 0real,
            n >= 1real,
    ;
}

/// The difference of two symmetric matrices.
spec fn difference(m: Six, n: Six) -> Six {
    Six {
        a: m.a - n.a,
        b: m.b - n.b,
        c: m.c - n.c,
        d: m.d - n.d,
        e: m.e - n.e,
        f: m.f - n.f,
    }
}

proof fn lemma_small_product(d: real, x: real, y: real, error: real)
    requires
        size(d) <= error,
    ensures
        size(x * (d * y)) <= error * (x * x + y * y) / 2real,
{
    let s = x * y;
    let (p, q) = (x * x, y * y);
    assert(x * (d * y) == d * s) by (nonlinear_arith)
        requires
            s == x * y,
    ;
    assert(size(s) <= (p + q) / 2real) by (nonlinear_arith)
        requires
            s == x * y,
            p == x * x,
            q == y * y,
    ;
    lemma_product_size(d, s, error, (p + q) / 2real);
    assert(error * ((p + q) / 2real) == error * (p + q) / 2real) by (nonlinear_arith);
}

proof fn lemma_small_row(x: real, a: real, b: real, c: real, u: Three, error: real)
    requires
        size(a) <= error && size(b) <= error && size(c) <= error,
    ensures
        size(x * (a * u.x + b * u.y + c * u.z)) <= error * (3real * (x * x) + u.dot(u)) / 2real,
{
    lemma_small_product(a, x, u.x, error);
    lemma_small_product(b, x, u.y, error);
    lemma_small_product(c, x, u.z, error);
    lemma_left_sum(x, a * u.x + b * u.y, c * u.z);
    lemma_left_sum(x, a * u.x, b * u.y);
    let (p, i, j, k) = (x * x, u.x * u.x, u.y * u.y, u.z * u.z);
    lemma_left_sum(error, p, i);
    lemma_left_sum(error, p, j);
    lemma_left_sum(error, p, k);
    lemma_left_sum(error, 3real * p, i + j + k);
    lemma_left_sum(error, i + j, k);
    lemma_left_sum(error, i, j);
    assert(error * (3real * p) == 3real * (error * p)) by (nonlinear_arith);
}

/// A matrix that is a little off stretches a little differently.
proof fn lemma_stretch_off(m: Six, exact: Six, error: real, u: Three)
    requires
        difference(m, exact).within(error),
    ensures
        size(m.stretch(u) - exact.stretch(u)) <= 3real * (error * u.dot(u)),
{
    let d = difference(m, exact);
    lemma_stretch_of_sum(exact, d, u);
    assert(exact.plus(d) == m);
    lemma_small_row(u.x, d.a, d.b, d.c, u, error);
    lemma_small_row(u.y, d.b, d.d, d.e, u, error);
    lemma_small_row(u.z, d.c, d.e, d.f, u, error);
    let (i, j, k) = (u.x * u.x, u.y * u.y, u.z * u.z);
    let all = u.dot(u);
    assert(all == i + j + k);
    lemma_left_sum(error, 3real * i, all);
    lemma_left_sum(error, 3real * j, all);
    lemma_left_sum(error, 3real * k, all);
    lemma_left_sum(error, i + j, k);
    lemma_left_sum(error, i, j);
    assert(error * (3real * i) == 3real * (error * i)) by (nonlinear_arith);
    assert(error * (3real * j) == 3real * (error * j)) by (nonlinear_arith);
    assert(error * (3real * k) == 3real * (error * k)) by (nonlinear_arith);
}

/// The rounded matrix by which corners scatter is one that directions can be
/// refined by.
#[verifier::rlimit(50)]
proof fn lemma_scatter_is_refinable(triangles: Seq<Triangle>, bound: real)
    requires
        0 < triangles.len() * 3 <= 131072,
        triangles_within(triangles, bound),
        1real / 1024real <= bound <= 8388608real,
    ensures
        refinable(
            scatter_matrix(triangles),
            11real * (bound * bound),
            3real * scatter_error(triangles, bound),
        ),
        difference(
            Six::of(scatter_matrix(triangles)),
            exact_scatter(triangles, Three::of(mean_corner(triangles))),
        ).within(scatter_error(triangles, bound)),
        0real <= scatter_error(triangles, bound) <= bound * bound,
{
    law_scatter_is_nearly_exact(triangles, bound);
    let n = corners(triangles);
    lemma_bound_is_moderate(bound, n);
    let square = bound * bound;
    assert(square <= 70368744177664real) by (nonlinear_arith)
        requires
            0real < bound <= 8388608real,
            square == bound * bound,
    ;
    let error = scatter_error(triangles, bound);
    assert(0real <= n * part(square) <= square / 128real) by (nonlinear_arith)
        requires
            0real <= n <= 131072real,
            square > 0real,
    ;
    let from = Three::of(mean_corner(triangles));
    let (m, exact) = (Six::of(scatter_matrix(triangles)), exact_scatter(triangles, from));
    lemma_within(exact.a, m.a, 10real * square, error);
    lemma_within(exact.b, m.b, 10real * square, error);
    lemma_within(exact.c, m.c, 10real * square, error);
    lemma_within(exact.d, m.d, 10real * square, error);
    lemma_within(exact.e, m.e, 10real * square, error);
    lemma_within(exact.f, m.f, 10real * square, error);
    assert forall|u: Three| #[trigger] m.stretch(u) >= -((3real * error) * u.dot(u)) by {
        law_stretch_is_the_mean_square(triangles, from, u);
        lemma_stretch_off(m, exact, error, u);
        let all = u.dot(u);
        assert((3real * error) * all == 3real * (error * all)) by (nonlinear_arith);
    }
}

/// What rounding may cost the first axis of a box.
pub open spec fn first_axis_cost(triangles: Seq<Triangle>, bound: real) -> real {
    cost_of_rounds(
        32,
        11real * (bound * bound),
        3real * scatter_error(triangles, bound),
    ) + 16real * scatter_error(triangles, bound) + 1real / 500000real
}

/// The image by an exact matrix instead of a rounded one.
#[verifier::rlimit(50)]
proof fn lemma_exact_reaches(m: Six, exact: Six, u: Three, length: real, error: real)
    requires
        m.reaches(u, length),
        difference(m, exact).within(error),
        u.within(11real / 10real),
        error >= 0real,
    ensures
        exact.reaches(u, length + 10real * error),
{
    let d = difference(m, exact);
    lemma_stretch_of_sum(exact, d, u);
    assert(exact.plus(d) == m);
    let (p, e, g) = (m.image(u), exact.image(u), d.image(u));
    assert(e == p.minus(g));
    lemma_image_within(d, u, error, 11real / 10real);
    let off = 33real * error / 10real;
    assert(3real * (error * (11real / 10real)) == off) by (nonlinear_arith)
        requires
            off == 33real * error / 10real,
    ;
    lemma_coordinates_within(p, length);
    lemma_dot_within(p, g, length, off);
    lemma_dot_within(g, g, off, off);
    lemma_dot_of_difference(p, g, p);
    lemma_dot_of_difference(p, g, g);
    lemma_dot_of_difference(p, g, e);
    lemma_dot_turned(p, g);
    lemma_dot_turned(p, e);
    lemma_dot_turned(g, e);
    assert(e.dot(e) == p.dot(p) - 2real * p.dot(g) + g.dot(g));
    let (x, y) = (length * error, error * error);
    assert(length * off == 33real * x / 10real) by (nonlinear_arith)
        requires
            off == 33real * error / 10real,
            x == length * error,
    ;
    assert(off * off == 1089real * y / 100real) by (nonlinear_arith)
        requires
            off == 33real * error / 10real,
            y == error * error,
    ;
    assert(x >= 0real && y >= 0real) by (nonlinear_arith)
        requires
            x == length * error,
            y == error * error,
            length >= 0real,
            error >= 0real,
    ;
    assert((length + 10real * error) * (length + 10real * error) == length * length + 20real * x
        + 100real * y) by (nonlinear_arith)
        requires
            x == length * error,
            y == error * error,
    ;
}

proof fn lemma_coordinates_within(v: Three, length: real)
    requires
        length >= 0real,
        v.dot(v) <= length * length,
    ensures
        v.within(length),
{
    lemma_square_size(v.x, size(v.x));
    lemma_square_size(v.y, size(v.y));
    lemma_square_size(v.z, size(v.z));
    lemma_root_within(v.x, length);
    lemma_root_within(v.y, length);
    lemma_root_within(v.z, length);
}

proof fn lemma_root_within(x: real, length: real)
    requires
        length >= 0real,
        x * x <= length * length,
    ensures
        size(x) <= length,
{
    assert(-length <= x <= length) by (nonlinear_arith)
        requires
            length >= 0real,
            x * x <= length * length,
    ;
}

/// The first axis of a box is a direction in which the corners scatter much.
/// Along it the mean square of their ways from the mean is, but for rounding, no
/// less than the length of the image that the exact scatter gives any direction
/// passed on the way to it, be it the first coordinate axis or one of the
/// thirty-two rounds.
#[verifier::rlimit(50)]
pub proof fn law_first_axis_follows_the_scatter(
    triangles: Seq<Triangle>,
    bound: real,
    passed: nat,
)
    requires
        0 < triangles.len() * 3 <= 131072,
        triangles_within(triangles, bound),
        1real / 1024real <= bound <= 8388608real,
        passed < 32,
    ensures
        exact_scatter(triangles, Three::of(mean_corner(triangles))).reaches(
            Three::of(refined(scatter_matrix(triangles), Vec3::x_unit().normalize(), passed)),
            exact_scatter(triangles, Three::of(mean_corner(triangles))).stretch(
                Three::of(principal_basis(scatter_matrix(triangles)).x_axis),
            ) + first_axis_cost(triangles, bound),
        ),
{
    let matrix = scatter_matrix(triangles);
    let (m, exact) = (
        Six::of(matrix),
        exact_scatter(triangles, Three::of(mean_corner(triangles))),
    );
    let (most, error) = (11real * (bound * bound), scatter_error(triangles, bound));
    lemma_scatter_is_refinable(triangles, bound);
    lemma_coordinate_axes();
    let first = Vec3::x_unit().normalize();
    law_refined_direction_is_stretched(matrix, first, 32, passed, most, 3real * error);
    law_refining_does_not_lose(matrix, first, 32, most, 3real * error);
    law_refining_does_not_lose(matrix, first, passed, most, 3real * error);
    let axis = principal_basis(matrix).x_axis;
    assert(axis == refined(matrix, first, 32));
    let y = refined(matrix, first, passed);
    lemma_nearly_unit_coordinates(y);
    let u = Three::of(axis);
    let length = m.stretch(u) + cost_of_rounds(32, most, 3real * error) + 1real / 500000real;
    lemma_exact_reaches(m, exact, Three::of(y), length, error);
    lemma_stretch_off(m, exact, error, u);
    let all = u.dot(u);
    assert(all <= 2real);
    assert(error * all <= 2real * error) by (nonlinear_arith)
        requires
            all <= 2real,
            error >= 0real,
    ;
    lemma_longer_reaches(
        exact,
        Three::of(y),
        length + 10real * error,
        exact.stretch(u) + first_axis_cost(triangles, bound),
    );
}

} // verus!
