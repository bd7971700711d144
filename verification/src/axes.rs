//! The axes that boxes are fitted along.
//!
//! The principal axes of a mesh of moderate size are nearly orthonormal and
//! right-handed, and no axis of a box is long, so that boxes hold their
//! triangles.
use crate::binary32::{Binary32, ONE, ZERO};
use crate::bounds::{
    bounded, bounded_basis, bounded_point, bounded_triangle, bounded_triangles,
    law_bounded_corners_are_measurable, lemma_covariance_bounded, lemma_deflated_bounded,
    lemma_dot_bounded, lemma_image_bounded, lemma_looser_point, lemma_looser_triangle,
    lemma_point_sum_bounded, lemma_product_bounded, lemma_scaled_bounded, lemma_sum_bounded,
};
use crate::cluster::fitted;
use crate::directions::{
    dot_sizes, exact_cross, exact_dot, follows_cross, law_value_of_dot, lemma_bounded_by_three,
    lemma_cross_coordinate, lemma_cross_normalized, lemma_image_coordinates,
    lemma_lengths_and_products, lemma_nearly_unit_coordinates, lemma_normalize,
    lemma_product_of_three, lemma_product_size, lemma_size_of_product, lemma_square_of_difference,
    lemma_square_size, lemma_three_sizes, lemma_times_difference, lemma_times_three, lemma_within,
    nearly_across, nearly_unit,
};
use crate::exact::{best_basis, holds, law_cluster_box_holds_every_corner};
use crate::fitting::{
    corner_count, face_basis, first_index, has_normal, is_corner, least_parallel_axis, mean_corner,
    moments_about, normal_across, outer_product, principal_basis, refined, surface_error,
    tilted_against, NO_DIRECTION, NO_SECOND_AXIS, REFINEMENTS,
};
use crate::rotation::{
    all_kept, law_rotation_is_kept, lemma_axes_are_a_rotation, lemma_cross_completes_a_rotation,
    Nine,
};
use crate::rounding::{lemma_units_in_binade, units_of};
use crate::triangle::{triangle_normal, Triangle};
use crate::value::{
    law_order_of_values, law_value_of_product, law_value_of_sum, law_values_of_constants,
    lemma_bounded_value, lemma_one_in_units, lemma_value_of_neg, near, part, size, unit, value,
};
use crate::vector::{Mat3, Quat, Vec3};
use vstd::arithmetic::power2::{lemma2_to64, lemma2_to64_rest, lemma_pow2_adds, pow2};
use vstd::prelude::*;

verus! {

/// Whether axes are unit vectors at right angles to each other, but for small
/// parts.
pub open spec fn nearly_orthonormal(basis: Mat3) -> bool {
    &&& nearly_unit(basis.x_axis)
    &&& nearly_unit(basis.y_axis)
    &&& nearly_unit(basis.z_axis)
    &&& nearly_across(basis.x_axis, basis.y_axis)
    &&& nearly_across(basis.y_axis, basis.z_axis)
    &&& nearly_across(basis.z_axis, basis.x_axis)
}

/// The exact volume that three axes span, with the sign of their orientation.
pub open spec fn orientation(basis: Mat3) -> real {
    let (x, y, z) = exact_cross(basis.x_axis, basis.y_axis);
    x * value(basis.z_axis.x) + y * value(basis.z_axis.y) + z * value(basis.z_axis.z)
}

/// The bounds below which vectors have no direction, as far as it matters how
/// great they are.
pub(crate) proof fn lemma_thresholds()
    ensures
        Binary32::of(NO_DIRECTION).is_finite(),
        Binary32::of(NO_SECOND_AXIS).is_finite(),
        value(Binary32::of(NO_DIRECTION)) == 9223372real / 9223372036854775808real,
        value(Binary32::of(NO_SECOND_AXIS)) == 14411519real / 144115188075855872real,
        value(Binary32::of(NO_DIRECTION)) >= 1real / 1099511627776real,
        value(Binary32::of(NO_DIRECTION)) <= 1real / 549755813888real,
        value(Binary32::of(NO_SECOND_AXIS)) >= 1real / 17179869184real,
        value(Binary32::of(NO_SECOND_AXIS)) <= 1real / 8589934592real,
{
    lemma_one_in_units();
    lemma2_to64();
    lemma2_to64_rest();
    lemma_units_in_binade(0x8c_bccc, 86);
    lemma_units_in_binade(0xdb_e6ff, 92);
    lemma_pow2_adds(86, 63);
    lemma_pow2_adds(92, 57);
    let (a, b) = (pow2(86) as real, pow2(92) as real);
    assert(0x8c_bccc + 86 * 0x80_0000 == NO_DIRECTION);
    assert(0xdb_e6ff + 92 * 0x80_0000 == NO_SECOND_AXIS);
    let (p, q) = (units_of(NO_DIRECTION as nat), units_of(NO_SECOND_AXIS as nat));
    assert(p == 0x8c_bccc * pow2(86) && q == 0xdb_e6ff * pow2(92));
    assert(p as real == 9223372real * a && q as real == 14411519real * b);
    assert(pow2(149) == pow2(86) * 0x8000_0000_0000_0000);
    assert(pow2(149) == pow2(92) * 0x200_0000_0000_0000);
    assert(pow2(149) as real == a * 9223372036854775808real);
    assert(pow2(149) as real == b * 144115188075855872real);
    let u = unit();
    assert(a * u == 1real / 9223372036854775808real) by (nonlinear_arith)
        requires
            (a * 9223372036854775808real) * u == 1real,
    ;
    assert(b * u == 1real / 144115188075855872real) by (nonlinear_arith)
        requires
            (b * 144115188075855872real) * u == 1real,
    ;
    assert((9223372real * a) * u == 9223372real * (a * u)) by (nonlinear_arith);
    assert((14411519real * b) * u == 14411519real * (b * u)) by (nonlinear_arith);
}

/// The bounds below which vectors have no direction are the twelfth and the tenth
/// power of a tenth, each rounded to the nearest number.
pub proof fn law_bounds_are_powers_of_a_tenth()
    ensures
        near(
            Binary32::of(NO_DIRECTION),
            1real / 1000000000000real,
            part(1real / 1000000000000real),
        ),
        near(Binary32::of(NO_SECOND_AXIS), 1real / 10000000000real, part(1real / 10000000000real)),
{
    lemma_thresholds();
}

/// The coordinate axes are unit vectors.
pub(crate) proof fn lemma_coordinate_axes()
    ensures
        nearly_unit(Vec3::x_unit()),
        nearly_unit(Vec3::y_unit()),
        nearly_unit(Vec3::z_unit()),
        nearly_unit(Vec3::x_unit().normalize()),
        nearly_unit(Vec3::y_unit().normalize()),
{
    law_values_of_constants();
    lemma_one_in_units();
    lemma2_to64();
    lemma_bounded_value(Binary32::of(ONE), 1);
    lemma_bounded_value(Binary32::of(ZERO), 1);
    assert(0real * 0real == 0real && 1real * 1real == 1real);
    law_value_of_dot(Vec3::x_unit(), Vec3::x_unit());
    law_value_of_dot(Vec3::y_unit(), Vec3::y_unit());
    lemma_looser_point(Vec3::x_unit(), 150, 209);
    lemma_looser_point(Vec3::y_unit(), 150, 209);
    lemma_normalize(Vec3::x_unit());
    lemma_normalize(Vec3::y_unit());
}

/// Refined directions stay unit vectors.
pub(crate) proof fn lemma_refined(matrix: Mat3, v: Vec3, rounds: nat)
    requires
        bounded_basis(matrix, 200),
        nearly_unit(v),
    ensures
        nearly_unit(refined(matrix, v, rounds)),
    decreases rounds,
{
    let image = matrix.apply(v);
    if rounds != 0 && !image.length_squared().lt(Binary32::of(NO_DIRECTION)) {
        lemma_thresholds();
        lemma_image_bounded(matrix, v, 200);
        lemma_looser_point(image, 203, 209);
        if image.length_squared().is_finite() {
            law_order_of_values(image.length_squared(), Binary32::of(NO_DIRECTION));
        }
        lemma_normalize(image);
        lemma_refined(matrix, image.normalize(), (rounds - 1) as nat);
    }
}

/// The product of nearly unit vectors.
proof fn lemma_unit_products(a: Vec3, b: Vec3)
    requires
        nearly_unit(a),
        nearly_unit(b),
    ensures
        dot_sizes(a, b) <= 11real / 10real,
        size(exact_dot(a, b)) <= 11real / 10real,
        near(a.dot(b), exact_dot(a, b), 6real * part(1real)),
{
    lemma_one_in_units();
    lemma_mean_square(value(a.x), value(b.x));
    lemma_mean_square(value(a.y), value(b.y));
    lemma_mean_square(value(a.z), value(b.z));
    law_value_of_dot(a, b);
}

proof fn lemma_mean_square(x: real, y: real)
    ensures
        2real * size(x * y) <= x * x + y * y,
{
    let (p, q) = (size(x), size(y));
    lemma_size_of_product(x, y);
    assert(2real * (p * q) <= p * p + q * q) by {
        let d = p - q;
        assert(d * d >= 0real) by (nonlinear_arith);
        lemma_square_of_difference(p, q);
    }
    lemma_size_of_product(x, x);
    lemma_size_of_product(y, y);
    lemma_square_size(x, p);
    lemma_square_size(y, q);
}

/// One coordinate of what is left of a vector across another one.
proof fn lemma_across_coordinate(s: Binary32, x: Binary32, c: Binary32)
    requires
        s.is_finite() && x.is_finite() && c.is_finite(),
        size(value(s)) <= 11real / 10real,
        size(value(x)) <= 11real / 10real,
        size(value(c)) <= 6real / 5real,
    ensures
        s.minus(x.times(c)).is_finite(),
        size(value(s.minus(x.times(c))) - (value(s) - value(x) * value(c))) <= 5real * part(1real),
        size(value(s.minus(x.times(c)))) <= 3real,
{
    lemma_one_in_units();
    lemma_product_size(value(x), value(c), 11real / 10real, 6real / 5real);
    assert((11real / 10real) * (6real / 5real) == 33real / 25real) by (nonlinear_arith);
    law_value_of_product(x, c);
    law_value_of_sum(s, x.times(c));
}

/// The part of a unit vector across another one is at right angles to it, as
/// far as it is long enough.
pub(crate) proof fn lemma_second_axis(x: Vec3, second: Vec3)
    requires
        nearly_unit(x),
        nearly_unit(second),
        !second.minus(x.scaled(second.dot(x))).length_squared().lt(Binary32::of(NO_SECOND_AXIS)),
    ensures
        nearly_unit(second.minus(x.scaled(second.dot(x))).normalize()),
        size(exact_dot(x, second.minus(x.scaled(second.dot(x))).normalize())) <= 3real / 5real,
{
    lemma_one_in_units();
    lemma_thresholds();
    lemma_nearly_unit_coordinates(x);
    lemma_nearly_unit_coordinates(second);
    lemma_unit_products(second, x);
    let c = second.dot(x);
    let k = value(c);
    lemma_across_coordinate(second.x, x.x, c);
    lemma_across_coordinate(second.y, x.y, c);
    lemma_across_coordinate(second.z, x.z, c);
    let v = second.minus(x.scaled(c));
    let (a, b, d) = (value(x.x), value(x.y), value(x.z));
    let (e, f, g) = (value(second.x), value(second.y), value(second.z));
    let (l, m, n) = (
        value(v.x) - (e - a * k),
        value(v.y) - (f - b * k),
        value(v.z) - (g - d * k),
    );
    lemma_three_sizes(l, m, n, a, b, d, 5real * part(1real), 11real / 10real);
    assert((5real * part(1real)) * (11real / 10real) <= 6real * part(1real)) by (nonlinear_arith);
    lemma_times_difference(value(v.x), e - a * k, a);
    lemma_times_difference(value(v.y), f - b * k, b);
    lemma_times_difference(value(v.z), g - d * k, d);
    lemma_times_difference(e, a * k, a);
    lemma_times_difference(f, b * k, b);
    lemma_times_difference(g, d * k, d);
    lemma_product_of_three(a, k, a);
    lemma_product_of_three(b, k, b);
    lemma_product_of_three(d, k, d);
    lemma_times_three(a * a, b * b, d * d, k);
    let along = exact_dot(second, x);
    let length = exact_dot(x, x);
    let sum = value(v.x) * a + value(v.y) * b + value(v.z) * d;
    assert(sum == (l * a + m * b + n * d) + (along - length * k));
    lemma_times_difference(length, 1real, k);
    lemma_product_size(length - 1real, k, 32real * part(1real), 6real / 5real);
    assert((32real * part(1real)) * (6real / 5real) <= 39real * part(1real)) by (nonlinear_arith);
    assert(size(sum) <= 64real * part(1real));
    lemma_bounded_by_three(v);
    let s = v.length_squared();
    if s.is_finite() {
        law_order_of_values(s, Binary32::of(NO_SECOND_AXIS));
    }
    let q = lemma_normalize(v);
    let w = v.normalize();
    lemma_square_size(value(v.x), 3real);
    lemma_square_size(value(v.y), 3real);
    lemma_square_size(value(v.z), 3real);
    law_value_of_dot(v, v);
    law_order_of_values(s, Binary32::of(NO_SECOND_AXIS));
    let long = exact_dot(v, v);
    assert(dot_sizes(v, v) == long);
    assert(long >= 1real / 18000000000real);
    assert(q <= 135000real) by (nonlinear_arith)
        requires
            (q * q) * long <= 1000001real / 1000000real,
            long >= 1real / 18000000000real,
    ;
    lemma_product_size(sum, q, 64real * part(1real), 135000real);
    assert((64real * part(1real)) * 135000real <= 13real / 25real) by (nonlinear_arith);
    lemma_image_coordinates(q, v);
    let (i, j, h) = (
        value(w.x) - q * value(v.x),
        value(w.y) - q * value(v.y),
        value(w.z) - q * value(v.z),
    );
    lemma_three_sizes(i, j, h, a, b, d, 2real * part(1real), 11real / 10real);
    assert((2real * part(1real)) * (11real / 10real) <= 3real * part(1real)) by (nonlinear_arith);
    lemma_times_difference(value(w.x), q * value(v.x), a);
    lemma_times_difference(value(w.y), q * value(v.y), b);
    lemma_times_difference(value(w.z), q * value(v.z), d);
    lemma_product_of_three(q, value(v.x), a);
    lemma_product_of_three(q, value(v.y), b);
    lemma_product_of_three(q, value(v.z), d);
    lemma_times_three(value(v.x) * a, value(v.y) * b, value(v.z) * d, q);
    assert(exact_dot(x, w) == (i * a + j * b + h * d) + sum * q);
}

/// The coordinate axis that is least parallel to a unit vector is not close to
/// parallel.
pub(crate) proof fn lemma_least_parallel(v: Vec3)
    requires
        nearly_unit(v),
    ensures
        nearly_unit(least_parallel_axis(v)),
        size(exact_dot(v, least_parallel_axis(v))) <= 3real / 5real,
{
    lemma_coordinate_axes();
    law_values_of_constants();
    let (x, y, z) = (value(v.x), value(v.y), value(v.z));
    lemma_abs(v.x);
    lemma_abs(v.y);
    lemma_abs(v.z);
    law_order_of_values(v.x.abs(), v.y.abs());
    law_order_of_values(v.x.abs(), v.z.abs());
    law_order_of_values(v.y.abs(), v.z.abs());
    assert(x * 0real == 0real && y * 0real == 0real && z * 0real == 0real);
    assert(x * 1real == x && y * 1real == y && z * 1real == z);
    lemma_size_of_product(x, x);
    lemma_size_of_product(y, y);
    lemma_size_of_product(z, z);
    lemma_square_size(x, size(x));
    lemma_square_size(y, size(y));
    lemma_square_size(z, size(z));
    lemma_least_square(size(x), size(y), size(z));
    lemma_least_square(size(y), size(x), size(z));
    lemma_least_square(size(z), size(x), size(y));
}

proof fn lemma_least_square(a: real, b: real, c: real)
    requires
        0real <= a,
        0real <= b,
        0real <= c,
    ensures
        a <= b && a <= c && a * a + b * b + c * c <= 101real / 100real ==> a <= 3real / 5real,
{
    if a <= b && a <= c && a * a + b * b + c * c <= 101real / 100real {
        assert(b * b >= a * a) by (nonlinear_arith)
            requires
                0real <= a <= b,
        ;
        assert(c * c >= a * a) by (nonlinear_arith)
            requires
                0real <= a <= c,
        ;
        assert(a <= 3real / 5real) by (nonlinear_arith)
            requires
                a * a <= 101real / 300real,
        ;
    }
}

proof fn lemma_abs(x: Binary32)
    requires
        x.is_finite(),
    ensures
        x.abs().is_finite(),
        value(x.abs()) == size(value(x)),
{
    lemma_value_of_neg(x);
    lemma_one_in_units();
    let u = units_of(x.magnitude()) as real;
    let s = unit();
    assert(u * s >= 0real) by (nonlinear_arith)
        requires
            u >= 0real,
            s > 0real,
    ;
    assert((-u) * s == -(u * s)) by (nonlinear_arith);
}

/// The cyclic product of three vectors.
proof fn lemma_turned_product(
    a: real,
    b: real,
    c: real,
    p: real,
    q: real,
    r: real,
    x: real,
    y: real,
    z: real,
)
    ensures
        (b * r - q * c) * x + (c * p - r * a) * y + (a * q - p * b) * z == p * (y * c - b * z) + q * (
        z * a - c * x) + r * (x * b - a * y),
{
    lemma_times_difference(b * r, q * c, x);
    lemma_times_difference(c * p, r * a, y);
    lemma_times_difference(a * q, p * b, z);
    lemma_times_difference(y * c, b * z, p);
    lemma_times_difference(z * a, c * x, q);
    lemma_times_difference(x * b, a * y, r);
    lemma_product_of_three(b, r, x);
    lemma_product_of_three(x, b, r);
    lemma_product_of_three(q, c, x);
    lemma_product_of_three(c, x, q);
    lemma_product_of_three(c, p, y);
    lemma_product_of_three(y, c, p);
    lemma_product_of_three(r, a, y);
    lemma_product_of_three(a, y, r);
    lemma_product_of_three(a, q, z);
    lemma_product_of_three(z, a, q);
    lemma_product_of_three(p, b, z);
    lemma_product_of_three(b, z, p);
}

/// The third axis spans a positive volume with the first one and the second
/// that is made of them.
pub(crate) proof fn lemma_right_handed(x: Vec3, third: Vec3)
    requires
        nearly_unit(x),
        nearly_unit(third),
        nearly_across(third, x),
    ensures
        ({
            let y = third.cross(x).normalize();
            &&& nearly_unit(y)
            &&& nearly_across(y, x)
            &&& nearly_across(y, third)
            &&& orientation(Mat3::from_cols(x, y, third)) >= 1real / 8real
        }),
{
    lemma_one_in_units();
    lemma_nearly_unit_coordinates(x);
    lemma_nearly_unit_coordinates(third);
    let q = lemma_cross_normalized(third, x);
    let y = third.cross(x).normalize();
    let (i, j, k) = exact_cross(third, x);
    let (a, b, c) = (value(x.x), value(x.y), value(x.z));
    let (d, e, f) = (value(third.x), value(third.y), value(third.z));
    let (l, m, n) = (value(y.x), value(y.y), value(y.z));
    lemma_turned_product(a, b, c, l, m, n, d, e, f);
    lemma_lengths_and_products(d, e, f, a, b, c);
    let whole = i * i + j * j + k * k;
    let (g, h, o) = (exact_dot(third, third), exact_dot(x, x), exact_dot(third, x));
    assert(g * h == o * o + whole);
    assert(g * h >= 99real / 100real) by (nonlinear_arith)
        requires
            g >= 524287real / 524288real,
            h >= 524287real / 524288real,
    ;
    lemma_square_size(o, 1real / 100real);
    assert((1real / 100real) * (1real / 100real) == 1real / 10000real) by (nonlinear_arith);
    assert(whole >= 98real / 100real);
    let (r, s, t) = (l - q * i, m - q * j, n - q * k);
    lemma_product_size(e, c, 11real / 10real, 11real / 10real);
    lemma_product_size(b, f, 11real / 10real, 11real / 10real);
    lemma_product_size(f, a, 11real / 10real, 11real / 10real);
    lemma_product_size(c, d, 11real / 10real, 11real / 10real);
    lemma_product_size(d, b, 11real / 10real, 11real / 10real);
    lemma_product_size(a, e, 11real / 10real, 11real / 10real);
    assert((11real / 10real) * (11real / 10real) == 121real / 100real) by (nonlinear_arith);
    lemma_three_sizes(r, s, t, i, j, k, 1real / 1048576real, 5real / 2real);
    assert((1real / 1048576real) * (5real / 2real) <= 1real / 400000real) by (nonlinear_arith);
    lemma_times_difference(l, q * i, i);
    lemma_times_difference(m, q * j, j);
    lemma_times_difference(n, q * k, k);
    lemma_product_of_three(q, i, i);
    lemma_product_of_three(q, j, j);
    lemma_product_of_three(q, k, k);
    lemma_times_three(i * i, j * j, k * k, q);
    assert((q * i) * i == (i * i) * q && (q * j) * j == (j * j) * q && (q * k) * k == (k * k) * q);
    assert(l * i + m * j + n * k == whole * q + (r * i + s * j + t * k));
    assert(whole * q >= (98real / 100real) * (1real / 6real)) by (nonlinear_arith)
        requires
            whole >= 98real / 100real,
            q >= 1real / 6real,
    ;
    assert((98real / 100real) * (1real / 6real) == 49real / 300real) by (nonlinear_arith);
}

/// The sign by which the third axis is chosen is that of the volume.
proof fn lemma_third_axis_is_kept(x: Vec3, y: Vec3, third: Vec3)
    requires
        nearly_unit(x),
        nearly_unit(y),
        nearly_unit(third),
        orientation(Mat3::from_cols(x, y, third)) >= 1real / 8real,
    ensures
        !x.cross(y).dot(third).lt(Binary32::of(ZERO)),
{
    lemma_one_in_units();
    law_values_of_constants();
    lemma_nearly_unit_coordinates(x);
    lemma_nearly_unit_coordinates(y);
    lemma_nearly_unit_coordinates(third);
    let v = x.cross(y);
    let (i, j, k) = exact_cross(x, y);
    lemma_cross_coordinate(x.y, y.z, y.y, x.z);
    lemma_cross_coordinate(x.z, y.x, y.z, x.x);
    lemma_cross_coordinate(x.x, y.y, y.x, x.y);
    let (a, b, c) = (value(third.x), value(third.y), value(third.z));
    let (p, q, r) = (value(v.x), value(v.y), value(v.z));
    lemma_three_sizes(p - i, q - j, r - k, a, b, c, 8real * part(1real), 11real / 10real);
    assert((8real * part(1real)) * (11real / 10real) <= 9real * part(1real)) by (nonlinear_arith);
    lemma_times_difference(p, i, a);
    lemma_times_difference(q, j, b);
    lemma_times_difference(r, k, c);
    lemma_within(i, p, 5real / 2real, 8real * part(1real));
    lemma_within(j, q, 5real / 2real, 8real * part(1real));
    lemma_within(k, r, 5real / 2real, 8real * part(1real));
    lemma_product_size(p, a, 3real, 11real / 10real);
    lemma_product_size(q, b, 3real, 11real / 10real);
    lemma_product_size(r, c, 3real, 11real / 10real);
    assert(3real * (11real / 10real) == 33real / 10real) by (nonlinear_arith);
    law_value_of_dot(v, third);
    law_order_of_values(v.dot(third), Binary32::of(ZERO));
}

/// The principal axes of a mesh are nearly orthonormal and right-handed: they
/// are those of a rotation, and the quaternion of a box along them turns to the
/// same axes, up to rounding. Coordinates may be as great as two to the
/// twentieth.
pub proof fn law_principal_axes_are_orthonormal(triangles: Seq<Triangle>)
    requires
        0 < triangles.len() * 3 <= u64::MAX,
        bounded_triangles(triangles, 169),
    ensures
        ({
            let basis = principal_basis(
                moments_about(triangles, mean_corner(triangles)).mean(corner_count(triangles)),
            );
            &&& nearly_orthonormal(basis)
            &&& orientation(basis) >= 1real / 8real
            &&& Nine::of(basis).rotation_within(1real / 2400real)
            &&& all_kept(
                Quat::from_basis(basis).basis(),
                Nine::of(basis),
                1real / 2400real,
            )
        }),
{
    let covariance = moments_about(triangles, mean_corner(triangles)).mean(
        corner_count(triangles),
    );
    lemma_covariance_bounded(triangles);
    lemma_axes_of(covariance);
    law_rotation_is_kept(principal_basis(covariance), 1real / 2400real);
}

pub(crate) proof fn lemma_looser_basis(m: Mat3)
    requires
        bounded_basis(m, 191),
    ensures
        bounded_basis(m, 200),
{
    lemma_looser_point(m.x_axis, 191, 200);
    lemma_looser_point(m.y_axis, 191, 200);
    lemma_looser_point(m.z_axis, 191, 200);
}

proof fn lemma_axes_of(covariance: Mat3)
    requires
        bounded_basis(covariance, 191),
    ensures
        nearly_orthonormal(principal_basis(covariance)),
        orientation(principal_basis(covariance)) >= 1real / 8real,
        Nine::of(principal_basis(covariance)).rotation_within(1real / 2400real),
{
    lemma_coordinate_axes();
    lemma_looser_basis(covariance);
    let x = refined(covariance, Vec3::x_unit().normalize(), REFINEMENTS as nat);
    lemma_refined(covariance, Vec3::x_unit().normalize(), REFINEMENTS as nat);
    let strength = x.dot(covariance.apply(x));
    let deflated = covariance.minus(outer_product(x, x).scaled(strength));
    lemma_deflated_bounded(covariance, x);
    let second = refined(deflated, Vec3::y_unit().normalize(), REFINEMENTS as nat);
    lemma_refined(deflated, Vec3::y_unit().normalize(), REFINEMENTS as nat);
    let across = second.minus(x.scaled(second.dot(x)));
    let towards = if across.length_squared().lt(Binary32::of(NO_SECOND_AXIS)) {
        x.cross(least_parallel_axis(x)).normalize()
    } else {
        across.normalize()
    };
    if across.length_squared().lt(Binary32::of(NO_SECOND_AXIS)) {
        lemma_least_parallel(x);
        lemma_cross_normalized(x, least_parallel_axis(x));
    } else {
        lemma_second_axis(x, second);
    }
    lemma_dot_turned(x, towards);
    let third = x.cross(towards).normalize();
    lemma_cross_normalized(x, towards);
    lemma_right_handed(x, third);
    let y = third.cross(x).normalize();
    lemma_third_axis_is_kept(x, y, third);
    lemma_axes_are_a_rotation(x, third);
    lemma_dot_turned(x, y);
    lemma_dot_turned(y, third);
}

pub(crate) proof fn lemma_dot_turned(a: Vec3, b: Vec3)
    ensures
        exact_dot(a, b) == exact_dot(b, a),
{
}

/// A condition that is met first somewhere is met there.
proof fn lemma_first_index_holds(triangles: Seq<Triangle>, condition: spec_fn(Triangle) -> bool)
    ensures
        first_index(triangles, condition) matches Some(i) ==> 0 <= i < triangles.len() && condition(
            triangles[i],
        ),
    decreases triangles.len(),
{
    if triangles.len() > 0 {
        lemma_first_index_holds(triangles.drop_last(), condition);
    }
}

/// The normal of a triangle within two to the twentieth.
pub(crate) proof fn lemma_normal_bounded(t: Triangle)
    requires
        bounded_triangle(t, 169),
    ensures
        bounded_point(triangle_normal(t), 192),
{
    let (e, f) = (t.b.minus(t.a), t.c.minus(t.a));
    lemma_point_sum_bounded(t.b, t.a, 169);
    lemma_point_sum_bounded(t.c, t.a, 169);
    lemma_difference_of_products_bounded(e.y, f.z, f.y, e.z);
    lemma_difference_of_products_bounded(e.z, f.x, f.z, e.x);
    lemma_difference_of_products_bounded(e.x, f.y, f.x, e.y);
}

proof fn lemma_difference_of_products_bounded(a: Binary32, b: Binary32, c: Binary32, d: Binary32)
    requires
        bounded(a, 170) && bounded(b, 170) && bounded(c, 170) && bounded(d, 170),
    ensures
        bounded(a.times(b).minus(c.times(d)), 192),
{
    lemma_product_bounded(a, b, 170, 170);
    lemma_product_bounded(c, d, 170, 170);
    lemma_sum_bounded(a.times(b), c.times(d), 191);
}

/// The axes along faces are unit vectors, the third one the cross product of the
/// first two. Where these are at right angles, all are the axes of a rotation,
/// and the quaternion of a box along them turns to the same axes, up to
/// rounding. Coordinates may be as great as two to the twentieth.
pub proof fn law_face_axes_are_unit_vectors(triangles: Seq<Triangle>)
    requires
        bounded_triangles(triangles, 169),
    ensures
        face_basis(triangles) matches Some(basis) ==> {
            &&& nearly_unit(basis.x_axis)
            &&& nearly_unit(basis.y_axis)
            &&& follows_cross(basis.z_axis, basis.x_axis, basis.y_axis, 1real)
            &&& bounded_basis(basis, 152)
            &&& nearly_across(basis.x_axis, basis.y_axis) ==> {
                &&& Nine::of(basis).rotation_within(1real / 2400real)
                &&& all_kept(
                    Quat::from_basis(basis).basis(),
                    Nine::of(basis),
                    1real / 2400real,
                )
            }
        },
{
    lemma_thresholds();
    lemma_one_in_units();
    let first = |t: Triangle| has_normal(t);
    lemma_first_index_holds(triangles, first);
    if let Some(i) = first_index(triangles, first) {
        let normal = triangle_normal(triangles[i]);
        assert(bounded_triangle(triangles[i], 169));
        lemma_normal_bounded(triangles[i]);
        lemma_looser_point(normal, 192, 209);
        if normal.length_squared().is_finite() {
            law_order_of_values(Binary32::of(NO_DIRECTION), normal.length_squared());
        }
        lemma_normalize(normal);
        let x = normal.normalize();
        let second = |t: Triangle| tilted_against(t, x);
        lemma_first_index_holds(triangles, second);
        if let Some(j) = first_index(triangles, second) {
            let other = triangle_normal(triangles[j]);
            let across = normal_across(triangles[j], x);
            assert(bounded_triangle(triangles[j], 169));
            lemma_normal_bounded(triangles[j]);
            lemma_dot_bounded(other, x, 192, 150);
            lemma_scaled_bounded(x, other.dot(x), 150, 195);
            lemma_looser_point(other, 192, 196);
            lemma_point_sum_bounded(other, x.scaled(other.dot(x)), 196);
            lemma_looser_point(across, 197, 209);
            if across.length_squared().is_finite() {
                law_order_of_values(across.length_squared(), Binary32::of(NO_DIRECTION));
            }
            lemma_normalize(across);
            let y = across.normalize();
            lemma_nearly_unit_coordinates(x);
            lemma_nearly_unit_coordinates(y);
            lemma_cross_coordinate(x.y, y.z, y.y, x.z);
            lemma_cross_coordinate(x.z, y.x, y.z, x.x);
            lemma_cross_coordinate(x.x, y.y, y.x, x.y);
            let z = x.cross(y);
            lemma2_to64();
            lemma_bounded_value(z.x, 3);
            lemma_bounded_value(z.y, 3);
            lemma_bounded_value(z.z, 3);
            lemma_looser_point(x, 150, 152);
            lemma_looser_point(y, 150, 152);
            let (p, q, r) = exact_cross(x, y);
            assert(1real * p == p && 1real * q == q && 1real * r == r);
            if nearly_across(x, y) {
                lemma_cross_completes_a_rotation(x, y);
                law_rotation_is_kept(Mat3::from_cols(x, y, z), 1real / 2400real);
            }
        }
    }
}

/// No axis of the box of some triangles is long. Coordinates may be as great as
/// two to the twentieth.
pub proof fn law_best_axes_are_bounded(triangles: Seq<Triangle>)
    requires
        0 < triangles.len() * 3 <= u64::MAX,
        bounded_triangles(triangles, 169),
    ensures
        bounded_basis(best_basis(triangles), 152),
{
    law_principal_axes_are_orthonormal(triangles);
    law_face_axes_are_unit_vectors(triangles);
    let basis = principal_basis(
        moments_about(triangles, mean_corner(triangles)).mean(corner_count(triangles)),
    );
    lemma_looser_point(basis.x_axis, 150, 152);
    lemma_looser_point(basis.y_axis, 150, 152);
    lemma_looser_point(basis.z_axis, 150, 152);
}

/// The box of a cluster holds every corner of its triangles up to rounding.
/// Coordinates may be as great as two to the twentieth.
pub proof fn law_moderate_cluster_is_held(triangles: Seq<Triangle>, i: int, corner: Vec3)
    requires
        triangles.len() * 3 <= u64::MAX,
        bounded_triangles(triangles, 169),
        0 <= i < triangles.len(),
        is_corner(triangles[i], corner),
    ensures
        fitted(triangles).triangles == triangles,
        fitted(triangles).surface_error == surface_error(triangles, fitted(triangles).obb),
        holds(fitted(triangles).obb, triangles, best_basis(triangles), corner),
{
    law_best_axes_are_bounded(triangles);
    assert forall|k: int| 0 <= k < triangles.len() implies bounded_triangle(
        #[trigger] triangles[k],
        239,
    ) by {
        lemma_looser_triangle(triangles[k], 169, 239);
    }
    law_bounded_corners_are_measurable(triangles, best_basis(triangles));
    law_cluster_box_holds_every_corner(triangles, i, corner);
}

} // verus!
