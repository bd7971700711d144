//! The second axis of a box: it lies in the plane of the first one and of the
//! direction in which what the first leaves over scatters most.
use crate::arithmetic::law_product_commutes;
use crate::axes::{
    lemma_coordinate_axes, lemma_dot_turned, lemma_least_parallel, lemma_looser_basis,
    lemma_refined, lemma_right_handed, lemma_second_axis, lemma_thresholds,
};
use crate::binary32::Binary32;
use crate::bounds::{bounded_basis, lemma_deflated_bounded};
use crate::directions::{
    dot_sizes, exact_dot, law_value_of_dot, lemma_bounded_by_three,
    lemma_cross_normalized, lemma_image_coordinates, lemma_nearly_unit_coordinates,
    lemma_normalize, lemma_product_size, lemma_sizes_add, lemma_square_size,
    lemma_times_difference, lemma_within, nearly_unit,
};
use crate::faces::law_rest_is_across;
use crate::fitting::{
    least_parallel_axis, outer_product, principal_basis, refined, NO_SECOND_AXIS, REFINEMENTS,
};
use crate::grid::lemma_rounded_sum;
use crate::moments::near_matrix;
use crate::scatter::{
    lemma_dot_of_difference, lemma_dot_within, lemma_image_within, lemma_length,
    lemma_mean_of_lengths,
    lemma_rounded_image, lemma_scaled_dots,
    symmetric, Six, Three,
};
use crate::value::{
    law_order_of_values, law_value_of_product, lemma_bounded_value,
    lemma_one_in_units, near, part, size, unit, value,
};
use crate::vector::{Mat3, Vec3};
use vstd::arithmetic::power2::{lemma2_to64_rest, pow2};
use vstd::prelude::*;

verus! {

/// The cross product of two vectors of real numbers.
pub open spec fn cross(u: Three, v: Three) -> Three {
    Three {
        x: u.y * v.z - v.y * u.z,
        y: u.z * v.x - v.z * u.x,
        z: u.x * v.y - v.x * u.y,
    }
}

proof fn lemma_left_difference(x: real, u: real, v: real)
    ensures
        x * (u - v) == x * u - x * v,
{
    assert(x * (u - v) == x * u - x * v) by (nonlinear_arith);
}

proof fn lemma_cross_of_difference(x: Three, u: Three, v: Three)
    ensures
        cross(x, u.minus(v)) == cross(x, u).minus(cross(x, v)),
{
    lemma_left_difference(x.y, u.z, v.z);
    lemma_left_difference(x.z, u.x, v.x);
    lemma_left_difference(x.x, u.y, v.y);
    lemma_times_difference(u.y, v.y, x.z);
    lemma_times_difference(u.z, v.z, x.x);
    lemma_times_difference(u.x, v.x, x.y);
}

proof fn lemma_scaled_difference(k: real, x: real, y: real, u: real, v: real)
    ensures
        x * (k * u) - (k * v) * y == k * (x * u - v * y),
{
    assert(x * (k * u) == k * (x * u)) by (nonlinear_arith);
    assert((k * v) * y == k * (v * y)) by (nonlinear_arith);
    lemma_left_difference(k, x * u, v * y);
}

proof fn lemma_cross_scaled(x: Three, u: Three, k: real)
    ensures
        cross(x, u.scaled(k)) == cross(x, u).scaled(k),
{
    lemma_scaled_difference(k, x.y, x.z, u.z, u.y);
    lemma_scaled_difference(k, x.z, x.x, u.x, u.z);
    lemma_scaled_difference(k, x.x, x.y, u.y, u.x);
}

proof fn lemma_cross_with_itself(x: Three, k: real)
    ensures
        cross(x, x.scaled(k)) == (Three { x: 0real, y: 0real, z: 0real }),
{
    lemma_cross_scaled(x, x, k);
    assert(x.y * x.z == x.z * x.y && x.z * x.x == x.x * x.z && x.x * x.y == x.y * x.x)
        by (nonlinear_arith);
    assert(k * 0real == 0real) by (nonlinear_arith);
}

proof fn lemma_cross_within(x: Three, u: Three, m: real, n: real)
    requires
        x.within(m),
        u.within(n),
    ensures
        cross(x, u).within(2real * (m * n)),
{
    lemma_product_size(x.y, u.z, m, n);
    lemma_product_size(x.z, u.x, m, n);
    lemma_product_size(x.x, u.y, m, n);
    lemma_product_size(u.y, x.z, n, m);
    lemma_product_size(u.z, x.x, n, m);
    lemma_product_size(u.x, x.y, n, m);
    assert(m * n == n * m) by (nonlinear_arith);
    lemma_sizes_add(x.y * u.z, u.y * x.z);
    lemma_sizes_add(x.z * u.x, u.z * x.x);
    lemma_sizes_add(x.x * u.y, u.x * x.y);
}

/// A triple product with a short vector.
proof fn lemma_short_triple(y: Three, x: Three, u: Three, most: real)
    requires
        x.within(11real / 10real),
        y.within(11real / 10real),
        u.within(most),
        most >= 0real,
    ensures
        size(y.dot(cross(x, u))) <= 8real * most,
{
    lemma_cross_within(x, u, 11real / 10real, most);
    let wide = 2real * ((11real / 10real) * most);
    lemma_dot_within(y, cross(x, u), 11real / 10real, wide);
    assert(3real * ((11real / 10real) * wide) <= 8real * most) by (nonlinear_arith)
        requires
            wide == 2real * ((11real / 10real) * most),
            most >= 0real,
    ;
}

proof fn lemma_small_multiple_of(k: real, x: real, most: real, error: real)
    requires
        0real < k <= most,
        size(x) <= error,
    ensures
        size(k * x) <= most * error,
{
    lemma_product_size(k, x, most, error);
}

/// Vectors that are made of each other as the axes of a box lie in one plane.
#[verifier::rlimit(50)]
proof fn lemma_in_plane(
    x: Three,
    s: Three,
    a: Three,
    t: Three,
    third: Three,
    y: Three,
    c: real,
    q: real,
    rho: real,
    k: real,
)
    requires
        x.within(11real / 10real),
        y.within(11real / 10real),
        a.minus(s.minus(x.scaled(c))).within(36real * part(1real)),
        q * rho == 1real,
        0real < rho <= 6real,
        t.minus(a.scaled(q)).within(2real * part(1real)),
        k >= 1real / 6real,
        third.minus(cross(x, t).scaled(k)).within(1real / 1048576real),
        size(y.dot(third)) <= 1real / 262144real,
    ensures
        size(y.dot(cross(x, s))) <= 1real / 2048real,
{
    let rest = s.minus(x.scaled(c));
    let first = a.minus(rest);
    lemma_cross_of_difference(x, s, x.scaled(c));
    lemma_cross_with_itself(x, c);
    assert(cross(x, rest) == cross(x, s));
    lemma_cross_of_difference(x, a, rest);
    assert(cross(x, s) == cross(x, a).minus(cross(x, first)));
    lemma_dot_of_difference(cross(x, a), cross(x, first), y);
    lemma_short_triple(y, x, first, 36real * part(1real));

    let second = t.minus(a.scaled(q));
    lemma_cross_of_difference(x, t, a.scaled(q));
    lemma_cross_scaled(x, a, q);
    lemma_scaled_dots(q, cross(x, a), y);
    lemma_dot_of_difference(cross(x, t), cross(x, a.scaled(q)), y);
    lemma_short_triple(y, x, second, 2real * part(1real));
    let (i, j) = (y.dot(cross(x, a)), y.dot(cross(x, t)));
    assert(q * i == j - y.dot(cross(x, second)));
    let d = j - y.dot(cross(x, second));
    assert(i == rho * d) by (nonlinear_arith)
        requires
            q * i == d,
            q * rho == 1real,
    ;

    let fourth = third.minus(cross(x, t).scaled(k));
    lemma_dot_of_difference(third, cross(x, t).scaled(k), y);
    lemma_scaled_dots(k, cross(x, t), y);
    lemma_dot_within(y, fourth, 11real / 10real, 1real / 1048576real);
    assert(3real * ((11real / 10real) * (1real / 1048576real)) <= 4real / 1048576real)
        by (nonlinear_arith);
    let e = y.dot(third) - y.dot(fourth);
    assert(k * j == e);
    assert(size(e) <= 8real / 1048576real);
    assert(size(j) <= 48real / 1048576real) by (nonlinear_arith)
        requires
            k * j == e,
            size(e) <= 8real / 1048576real,
            k >= 1real / 6real,
    ;
    assert(size(d) <= 49real / 1048576real);
    lemma_small_multiple_of(rho, d, 6real, 49real / 1048576real);
    assert(6real * (49real / 1048576real) == 294real / 1048576real) by (nonlinear_arith);
    lemma_sizes_add(i, y.dot(cross(x, first)));
}

/// What is left across the first axis, as far as it is short.
proof fn lemma_short_rest(v: Vec3)
    requires
        v.x.is_finite() && v.y.is_finite() && v.z.is_finite(),
        Three::of(v).within(3real),
        v.length_squared().lt(Binary32::of(NO_SECOND_AXIS)),
    ensures
        Three::of(v).within(1real / 40000real),
{
    lemma_one_in_units();
    lemma_thresholds();
    let (x, y, z) = (value(v.x), value(v.y), value(v.z));
    lemma_square_size(x, 3real);
    lemma_square_size(y, 3real);
    lemma_square_size(z, 3real);
    law_value_of_dot(v, v);
    law_order_of_values(v.length_squared(), Binary32::of(NO_SECOND_AXIS));
    lemma_short_coordinate(x, y * y + z * z);
    lemma_short_coordinate(y, z * z + x * x);
    lemma_short_coordinate(z, x * x + y * y);
}

proof fn lemma_short_coordinate(a: real, rest: real)
    requires
        a * a + rest <= 1real / 4294967296real,
        rest >= 0real,
    ensures
        size(a) <= 1real / 40000real,
{
    assert(-(1real / 40000real) <= a <= 1real / 40000real) by (nonlinear_arith)
        requires
            a * a <= 1real / 4294967296real,
    ;
}

/// The rest of a unit vector across another one.
#[verifier::rlimit(50)]
proof fn lemma_rest(second: Vec3, x: Vec3)
    requires
        nearly_unit(x),
        nearly_unit(second),
    ensures
        ({
            let rest = second.minus(x.scaled(second.dot(x)));
            let c = exact_dot(second, x);
            &&& rest.x.is_finite() && rest.y.is_finite() && rest.z.is_finite()
            &&& Three::of(rest).minus(Three::of(second).minus(Three::of(x).scaled(c))).within(
                36real * part(1real),
            )
            &&& Three::of(rest).within(3real)
        }),
{
    lemma_one_in_units();
    lemma_nearly_unit_coordinates(second);
    lemma_nearly_unit_coordinates(x);
    law_rest_is_across(second, x, 0, 11real / 10real);
    law_rest_is_across(second, x, 1, 11real / 10real);
    law_rest_is_across(second, x, 2, 11real / 10real);
    let (s, u, c) = (Three::of(second), Three::of(x), exact_dot(second, x));
    assert(u.x * c == c * u.x && u.y * c == c * u.y && u.z * c == c * u.z) by (nonlinear_arith);
    lemma_dot_within(s, u, 11real / 10real, 11real / 10real);
    lemma_mean_of_lengths(s, u);
    lemma_mean_of_lengths(s.scaled(-1real), u);
    lemma_scaled_dots(-1real, s, u);
    assert(((-1real) * (-1real)) * s.dot(s) == s.dot(s)) by (nonlinear_arith);
    assert((-1real) * s.dot(u) == -s.dot(u)) by (nonlinear_arith);
    assert(size(c) <= 101real / 100real);
    lemma_product_size(c, u.x, 101real / 100real, 11real / 10real);
    lemma_product_size(c, u.y, 101real / 100real, 11real / 10real);
    lemma_product_size(c, u.z, 101real / 100real, 11real / 10real);
    assert((101real / 100real) * (11real / 10real) <= 112real / 100real) by (nonlinear_arith);
    let r = s.minus(u.scaled(c));
    let rest = Three::of(second.minus(x.scaled(second.dot(x))));
    lemma_sizes_add(s.x, c * u.x);
    lemma_sizes_add(s.y, c * u.y);
    lemma_sizes_add(s.z, c * u.z);
    lemma_within(r.x, rest.x, 222real / 100real, 36real * part(1real));
    lemma_within(r.y, rest.y, 222real / 100real, 36real * part(1real));
    lemma_within(r.z, rest.z, 222real / 100real, 36real * part(1real));
}

proof fn lemma_rho_is_short(a: Three, rho: real)
    requires
        a.within(3real),
        rho > 0real,
        a.dot(a) >= rho * rho - rho * (16real * part(rho)),
    ensures
        rho <= 6real,
{
    lemma_dot_within(a, a, 3real, 3real);
    assert(3real * 3real == 9real);
    assert(rho * (16real * part(rho)) == 16real * part(rho * rho)) by (nonlinear_arith);
    assert(rho * rho <= 36real);
    assert(rho <= 6real) by (nonlinear_arith)
        requires
            rho * rho <= 36real,
            rho > 0real,
    ;
}

/// The second axis lies in the plane of the first one and the direction that it
/// is taken from.
#[verifier::rlimit(50)]
proof fn lemma_second_axis_in_plane(x: Vec3, second: Vec3)
    requires
        nearly_unit(x),
        nearly_unit(second),
    ensures
        ({
            let across = second.minus(x.scaled(second.dot(x)));
            let towards = if across.length_squared().lt(Binary32::of(NO_SECOND_AXIS)) {
                x.cross(least_parallel_axis(x)).normalize()
            } else {
                across.normalize()
            };
            let third = x.cross(towards).normalize();
            let y = third.cross(x).normalize();
            &&& nearly_unit(y)
            &&& size(Three::of(y).dot(cross(Three::of(x), Three::of(second)))) <= 1real / 2048real
        }),
{
    lemma_one_in_units();
    let across = second.minus(x.scaled(second.dot(x)));
    let c = exact_dot(second, x);
    let (xs, s, a) = (Three::of(x), Three::of(second), Three::of(across));
    lemma_rest(second, x);
    lemma_nearly_unit_coordinates(x);
    let short = across.length_squared().lt(Binary32::of(NO_SECOND_AXIS));
    let towards = if short {
        x.cross(least_parallel_axis(x)).normalize()
    } else {
        across.normalize()
    };
    if short {
        lemma_least_parallel(x);
        lemma_cross_normalized(x, least_parallel_axis(x));
    } else {
        lemma_second_axis(x, second);
    }
    lemma_dot_turned(x, towards);
    let third = x.cross(towards).normalize();
    let k = lemma_cross_normalized(x, towards);
    lemma_right_handed(x, third);
    let y = third.cross(x).normalize();
    lemma_nearly_unit_coordinates(y);
    let (ys, ts, thirds) = (Three::of(y), Three::of(towards), Three::of(third));
    if short {
        lemma_short_rest(across);
        let rest = s.minus(xs.scaled(c));
        let first = a.minus(rest);
        lemma_cross_of_difference(xs, s, xs.scaled(c));
        lemma_cross_with_itself(xs, c);
        assert(cross(xs, rest) == cross(xs, s));
        lemma_sizes_add(a.x, first.x);
        lemma_sizes_add(a.y, first.y);
        lemma_sizes_add(a.z, first.z);
        assert(rest.within(1real / 30000real));
        lemma_short_triple(ys, xs, rest, 1real / 30000real);
    } else {
        lemma_bounded_by_three(across);
        lemma_thresholds();
        if across.length_squared().is_finite() {
            law_order_of_values(across.length_squared(), Binary32::of(NO_SECOND_AXIS));
        }
        let q = lemma_normalize(across);
        lemma_image_coordinates(q, across);
        let rho = lemma_length(q, a.dot(a));
        lemma_rho_is_short(a, rho);
        lemma_in_plane(xs, s, a, ts, thirds, ys, c, q, rho, k);
    }
}

/// How much the first axis is stretched, as it is computed.
#[verifier::rlimit(50)]
proof fn lemma_strength(matrix: Mat3, x: Vec3, bound: real)
    requires
        symmetric(matrix),
        Six::of(matrix).within(bound),
        1real / 1048576real <= bound <= 1125899906842624real,
        nearly_unit(x),
    ensures
        near(
            x.dot(matrix.apply(x)),
            Six::of(matrix).stretch(Three::of(x)),
            130real * part(bound),
        ),
        size(Six::of(matrix).stretch(Three::of(x))) <= 11real * bound,
{
    lemma_one_in_units();
    lemma_rounded_image(matrix, x, bound);
    let image = matrix.apply(x);
    let (m, u, z) = (Six::of(matrix), Three::of(x), Three::of(image));
    let g = m.image(u);
    lemma_product_size(u.x, z.x, 11real / 10real, 4real * bound);
    lemma_product_size(u.y, z.y, 11real / 10real, 4real * bound);
    lemma_product_size(u.z, z.z, 11real / 10real, 4real * bound);
    assert((11real / 10real) * (4real * bound) == 44real * bound / 10real) by (nonlinear_arith);
    assert(dot_sizes(x, image) <= 132real * bound / 10real);
    law_value_of_dot(x, image);
    lemma_dot_of_difference(z, g, u);
    lemma_dot_within(u, z.minus(g), 11real / 10real, 18real * part(bound));
    assert((11real / 10real) * (18real * part(bound)) == 198real * part(bound) / 10real)
        by (nonlinear_arith);
    lemma_sizes_add(value(x.dot(image)) - u.dot(z), u.dot(z.minus(g)));
    lemma_image_within(m, u, bound, 11real / 10real);
    assert(3real * (bound * (11real / 10real)) == 33real * bound / 10real) by (nonlinear_arith);
    lemma_dot_within(u, g, 11real / 10real, 33real * bound / 10real);
    assert((11real / 10real) * (33real * bound / 10real) == 363real * bound / 100real)
        by (nonlinear_arith);
}

/// What the first axis does to an entry.
#[verifier::rlimit(50)]
proof fn lemma_taken_away(a: Binary32, b: Binary32, strength: Binary32, exact: real, bound: real)
    requires
        a.is_finite() && b.is_finite(),
        size(value(a)) <= 11real / 10real,
        size(value(b)) <= 11real / 10real,
        near(strength, exact, 130real * part(bound)),
        size(exact) <= 11real * bound,
        1real / 1048576real <= bound <= 1125899906842624real,
    ensures
        near(
            a.times(b).times(strength),
            (value(a) * value(b)) * exact,
            190real * part(bound),
        ),
        size((value(a) * value(b)) * exact) <= 14real * bound,
{
    lemma_one_in_units();
    let ab = value(a) * value(b);
    lemma_product_size(value(a), value(b), 11real / 10real, 11real / 10real);
    assert((11real / 10real) * (11real / 10real) == 121real / 100real) by (nonlinear_arith);
    law_value_of_product(a, b);
    let (p, l) = (value(a.times(b)), value(strength));
    lemma_within(ab, p, 121real / 100real, 13real * part(1real) / 10real);
    lemma_within(exact, l, 11real * bound, 130real * part(bound));
    lemma_product_size(p, l - exact, 122real / 100real, 130real * part(bound));
    lemma_product_size(p - ab, exact, 13real * part(1real) / 10real, 11real * bound);
    lemma_product_size(p, l, 122real / 100real, 111real * bound / 10real);
    lemma_product_size(ab, exact, 121real / 100real, 11real * bound);
    lemma_bound_shares(bound);
    lemma_left_difference(p, l, exact);
    lemma_times_difference(p, ab, exact);
    law_value_of_product(a.times(b), strength);
    lemma_sizes_add(p * (l - exact), (p - ab) * exact);
    lemma_sizes_add(value(a.times(b).times(strength)) - p * l, p * l - ab * exact);
}

proof fn lemma_bound_shares(bound: real)
    ensures
        (122real / 100real) * (130real * part(bound)) == 15860real * part(bound) / 100real,
        (13real * part(1real) / 10real) * (11real * bound) == 143real * part(bound) / 10real,
        (122real / 100real) * (111real * bound / 10real) == 13542real * bound / 1000real,
        (121real / 100real) * (11real * bound) == 1331real * bound / 100real,
{
    assert((122real / 100real) * (130real * part(bound)) == 15860real * part(bound) / 100real)
        by (nonlinear_arith);
    assert((13real * part(1real) / 10real) * (11real * bound) == 143real * part(bound) / 10real)
        by (nonlinear_arith);
    assert((122real / 100real) * (111real * bound / 10real) == 13542real * bound / 1000real)
        by (nonlinear_arith);
    assert((121real / 100real) * (11real * bound) == 1331real * bound / 100real)
        by (nonlinear_arith);
}

/// What the first axis leaves over of an entry.
#[verifier::rlimit(50)]
proof fn lemma_left_over(
    entry: Binary32,
    a: Binary32,
    b: Binary32,
    strength: Binary32,
    exact: real,
    bound: real,
)
    requires
        entry.is_finite() && a.is_finite() && b.is_finite(),
        size(value(entry)) <= bound,
        size(value(a)) <= 11real / 10real,
        size(value(b)) <= 11real / 10real,
        near(strength, exact, 130real * part(bound)),
        size(exact) <= 11real * bound,
        1real / 1048576real <= bound <= 1125899906842624real,
    ensures
        near(
            entry.minus(a.times(b).times(strength)),
            value(entry) - (value(a) * value(b)) * exact,
            256real * part(bound),
        ),
{
    lemma_taken_away(a, b, strength, exact, bound);
    lemma_rounded_sum(
        entry,
        a.times(b).times(strength),
        value(entry),
        (value(a) * value(b)) * exact,
        0real,
        190real * part(bound),
        16real * bound,
    );
}

/// What a direction leaves over of how a symmetric matrix stretches: the matrix
/// without what it does along that direction.
pub open spec fn left_over(m: Six, u: Three) -> Six {
    let strength = m.stretch(u);
    Six {
        a: m.a - (u.x * u.x) * strength,
        b: m.b - (u.y * u.x) * strength,
        c: m.c - (u.z * u.x) * strength,
        d: m.d - (u.y * u.y) * strength,
        e: m.e - (u.z * u.y) * strength,
        f: m.f - (u.z * u.z) * strength,
    }
}

/// The matrix that the second axis is taken from.
proof fn lemma_deflated(matrix: Mat3, x: Vec3, bound: real)
    requires
        symmetric(matrix),
        Six::of(matrix).within(bound),
        1real / 1048576real <= bound <= 1125899906842624real,
        nearly_unit(x),
    ensures
        near_matrix(
            matrix.minus(outer_product(x, x).scaled(x.dot(matrix.apply(x)))),
            left_over(Six::of(matrix), Three::of(x)),
            256real * part(bound),
        ),
{
    lemma_strength(matrix, x, bound);
    lemma_nearly_unit_coordinates(x);
    let strength = x.dot(matrix.apply(x));
    let exact = Six::of(matrix).stretch(Three::of(x));
    let (u, v, w) = (matrix.x_axis, matrix.y_axis, matrix.z_axis);
    lemma_left_over(u.x, x.x, x.x, strength, exact, bound);
    lemma_left_over(u.y, x.y, x.x, strength, exact, bound);
    lemma_left_over(u.z, x.z, x.x, strength, exact, bound);
    lemma_left_over(v.y, x.y, x.y, strength, exact, bound);
    lemma_left_over(v.z, x.z, x.y, strength, exact, bound);
    lemma_left_over(w.z, x.z, x.z, strength, exact, bound);
    law_product_commutes(x.x, x.y);
    law_product_commutes(x.x, x.z);
    law_product_commutes(x.y, x.z);
}

/// Whether a direction lies in the plane of two others, but for one part in two
/// to the eleventh.
pub open spec fn in_plane(y: Vec3, x: Vec3, s: Vec3) -> bool {
    size(Three::of(y).dot(cross(Three::of(x), Three::of(s)))) <= 1real / 2048real
}

/// Whether a direction is refined, from the second coordinate axis in thirty-two
/// rounds, by a matrix that is given up to an error.
pub open spec fn refined_by(s: Vec3, rest: Mat3, exact: Six, error: real) -> bool {
    near_matrix(rest, exact, error) && s == refined(rest, Vec3::y_unit().normalize(), 32)
}

/// The second axis of a box lies in the plane of the first one and of the
/// direction that is refined by what the first one leaves over of the scatter.
#[verifier::rlimit(50)]
pub proof fn law_second_axis_follows_the_rest(covariance: Mat3, bound: real)
    requires
        symmetric(covariance),
        Six::of(covariance).within(bound),
        1real / 1048576real <= bound <= 4398046511104real,
    ensures
        ({
            let x = principal_basis(covariance).x_axis;
            let y = principal_basis(covariance).y_axis;
            exists|s: Vec3, rest: Mat3| #[trigger]
                refined_by(
                    s,
                    rest,
                    left_over(Six::of(covariance), Three::of(x)),
                    256real * part(bound),
                ) && in_plane(y, x, s)
        }),
{
    lemma2_to64_rest();
    assert(pow2(42) == 4398046511104);
    let (u, v, w) = (covariance.x_axis, covariance.y_axis, covariance.z_axis);
    lemma_bounded_value(u.x, 42);
    lemma_bounded_value(u.y, 42);
    lemma_bounded_value(u.z, 42);
    lemma_bounded_value(v.y, 42);
    lemma_bounded_value(v.z, 42);
    lemma_bounded_value(w.z, 42);
    assert(bounded_basis(covariance, 191));
    lemma_coordinate_axes();
    lemma_looser_basis(covariance);
    let x = refined(covariance, Vec3::x_unit().normalize(), REFINEMENTS as nat);
    lemma_refined(covariance, Vec3::x_unit().normalize(), REFINEMENTS as nat);
    let rest = covariance.minus(outer_product(x, x).scaled(x.dot(covariance.apply(x))));
    lemma_deflated_bounded(covariance, x);
    lemma_deflated(covariance, x, bound);
    let s = refined(rest, Vec3::y_unit().normalize(), REFINEMENTS as nat);
    lemma_refined(rest, Vec3::y_unit().normalize(), REFINEMENTS as nat);
    lemma_second_axis_in_plane(x, s);
    assert(principal_basis(covariance).x_axis == x);
    assert(refined_by(
        s,
        rest,
        left_over(Six::of(covariance), Three::of(principal_basis(covariance).x_axis)),
        256real * part(bound),
    ));
    assert(in_plane(principal_basis(covariance).y_axis, x, s));
}

} // verus!
