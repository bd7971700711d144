//! Along which direction a cluster is parted, and which triangles come to lie
//! on which side.
use crate::axes::{
    law_best_axes_are_bounded, law_face_axes_are_unit_vectors, law_principal_axes_are_orthonormal,
};
use crate::binary32::{law_rank_orders_numbers, Binary32, NEG_ONE, ONE, THREE};
use crate::bounds::{
    bounded_triangle, bounded_triangles, law_bounded_corners_are_measurable, lemma_looser_triangle,
};
use crate::cluster::{
    best_box, fitted, longest_axis, parted, place_along, spec_longest_axis, splits_into,
    ClusterView,
};
use crate::directions::{
    dot_sizes, exact_dot, law_value_of_dot, lemma_product_size, lemma_sizes_add, lemma_square_size,
    lemma_three_sizes, lemma_times_difference, lemma_within, nearly_across,
};
use crate::exact::best_basis;
use crate::fitting::{bounding_box, face_basis, numeric, principal_box, BoxTransform};
use crate::rotation::{kept, law_rotation_is_kept, Nine};
use crate::rounding::lemma_units_in_binade;
use crate::triangle::Triangle;
use crate::value::{
    large, law_order_of_values, law_value_of_quotient, law_value_of_sum, law_values_of_constants,
    lemma_bounded_value, lemma_one_in_units, lemma_value_of_neg, near, part, size, unit, value,
};
use crate::vector::{Mat3, Vec3};
use vstd::arithmetic::power2::{lemma2_to64, lemma_pow2_adds, pow2};
use vstd::prelude::*;

verus! {

/// Whether the first of three extents is the greatest.
pub open spec fn is_greatest(extent: Binary32, second: Binary32, third: Binary32) -> bool {
    second.le(extent) && third.le(extent)
}

/// A box is parted along one of its own axes, and it is no longer along either
/// of the others.
pub proof fn law_parting_axis_is_a_longest_one(obb: BoxTransform)
    requires
        numeric(obb.scale),
    ensures
        ({
            let axis = longest_axis(obb);
            let axes = obb.rotation.basis();
            let extents = obb.scale;
            ||| axis == axes.x_axis && is_greatest(extents.x, extents.y, extents.z)
            ||| axis == axes.y_axis && is_greatest(extents.y, extents.z, extents.x)
            ||| axis == axes.z_axis && is_greatest(extents.z, extents.x, extents.y)
        }),
{
    reveal(spec_longest_axis);
    reveal(Binary32::spec_le);
}

/// Whether a direction is one of the axes of a basis up to what a quaternion
/// leaves out.
pub open spec fn lies_along(direction: Vec3, axis: Vec3, error: real) -> bool {
    &&& kept(direction.x, value(axis.x), error)
    &&& kept(direction.y, value(axis.y), error)
    &&& kept(direction.z, value(axis.z), error)
}

/// Whether a direction is that axis of a basis along which extents are greatest,
/// up to what a quaternion leaves out.
pub open spec fn lies_along_longest(direction: Vec3, basis: Mat3, extents: Vec3, error: real) -> bool {
    ||| lies_along(direction, basis.x_axis, error) && is_greatest(extents.x, extents.y, extents.z)
    ||| lies_along(direction, basis.y_axis, error) && is_greatest(extents.y, extents.z, extents.x)
    ||| lies_along(direction, basis.z_axis, error) && is_greatest(extents.z, extents.x, extents.y)
}

/// Whether every entry of a basis is finite.
pub open spec fn finite_basis(basis: Mat3) -> bool {
    &&& basis.x_axis.x.is_finite() && basis.x_axis.y.is_finite() && basis.x_axis.z.is_finite()
    &&& basis.y_axis.x.is_finite() && basis.y_axis.y.is_finite() && basis.y_axis.z.is_finite()
    &&& basis.z_axis.x.is_finite() && basis.z_axis.y.is_finite() && basis.z_axis.z.is_finite()
}

/// A box fitted in a basis that is a rotation is parted along the axis of that
/// basis in which it is longest, whatever the rotation.
pub proof fn law_fitted_box_is_parted_along_its_basis(
    triangles: Seq<Triangle>,
    basis: Mat3,
    error: real,
)
    requires
        finite_basis(basis),
        Nine::of(basis).rotation_within(error),
        error <= 1real / 100real,
        numeric(bounding_box(triangles, basis).scale),
    ensures
        lies_along_longest(
            longest_axis(bounding_box(triangles, basis)),
            basis,
            bounding_box(triangles, basis).scale,
            error,
        ),
{
    reveal(bounding_box);
    law_rotation_is_kept(basis, error);
    law_parting_axis_is_a_longest_one(bounding_box(triangles, basis));
}

/// Whether the faces along which a box of some triangles might lie are at right
/// angles.
pub open spec fn faces_are_square(triangles: Seq<Triangle>) -> bool {
    face_basis(triangles) matches Some(basis) ==> nearly_across(basis.x_axis, basis.y_axis)
}

/// A cluster is parted along the longest of the axes that its box was fitted
/// along. Coordinates may be as great as two to the twentieth.
pub proof fn law_cluster_is_parted_along_its_longest_axis(triangles: Seq<Triangle>)
    requires
        0 < triangles.len() * 3 <= u64::MAX,
        bounded_triangles(triangles, 169),
        faces_are_square(triangles),
    ensures
        numeric(fitted(triangles).obb.scale),
        Nine::of(best_basis(triangles)).rotation_within(1real / 2400real),
        lies_along_longest(
            longest_axis(fitted(triangles).obb),
            best_basis(triangles),
            fitted(triangles).obb.scale,
            1real / 2400real,
        ),
{
    let basis = best_basis(triangles);
    law_principal_axes_are_orthonormal(triangles);
    law_face_axes_are_unit_vectors(triangles);
    law_best_axes_are_bounded(triangles);
    assert forall|k: int| 0 <= k < triangles.len() implies bounded_triangle(
        #[trigger] triangles[k],
        239,
    ) by {
        lemma_looser_triangle(triangles[k], 169, 239);
    }
    law_bounded_corners_are_measurable(triangles, basis);
    assert(fitted(triangles).obb == bounding_box(triangles, basis)) by {
        reveal(best_box);
        reveal(principal_box);
    }
    assert(numeric(bounding_box(triangles, basis).scale)) by {
        reveal(bounding_box);
    }
    law_fitted_box_is_parted_along_its_basis(triangles, basis, 1real / 2400real);
}

/// The coordinate of the centre of gravity of three corners.
pub open spec fn exact_centre(a: Binary32, b: Binary32, c: Binary32) -> real {
    (value(a) + value(b) + value(c)) / 3real
}

/// How far along a direction the centre of gravity of a triangle lies.
pub open spec fn exact_place(t: Triangle, axis: Vec3) -> real {
    exact_centre(t.a.x, t.b.x, t.c.x) * value(axis.x) + exact_centre(t.a.y, t.b.y, t.c.y) * value(
        axis.y,
    ) + exact_centre(t.a.z, t.b.z, t.c.z) * value(axis.z)
}

/// Whether a vector is finite and no coordinate greater than a bound.
pub open spec fn point_within(v: Vec3, bound: real) -> bool {
    &&& v.x.is_finite() && v.y.is_finite() && v.z.is_finite()
    &&& size(value(v.x)) <= bound && size(value(v.y)) <= bound && size(value(v.z)) <= bound
}

/// Whether all corners of a triangle are finite and no coordinate greater than a
/// bound.
pub open spec fn triangle_within(t: Triangle, bound: real) -> bool {
    point_within(t.a, bound) && point_within(t.b, bound) && point_within(t.c, bound)
}

/// The values of three and of minus one.
pub proof fn law_values_of_other_constants()
    ensures
        Binary32::of(THREE).is_finite(),
        value(Binary32::of(THREE)) == 3real,
        Binary32::of(NEG_ONE).is_finite(),
        value(Binary32::of(NEG_ONE)) == -1real,
{
    law_values_of_constants();
    lemma_value_of_neg(Binary32::of(ONE));
    assert(Binary32::of(NEG_ONE) == Binary32::of(ONE).neg());
    lemma_one_in_units();
    lemma2_to64();
    lemma_units_in_binade(0xc0_0000, 127);
    lemma_pow2_adds(22, 127);
    assert(0xc0_0000 + 127 * 0x80_0000 == THREE);
    assert(Binary32::of(THREE).units() == 3 * pow2(149));
    let (p, u) = (pow2(149) as real, unit());
    assert((3real * p) * u == 3real * (p * u)) by (nonlinear_arith);
}

/// A sum of three, rounded after each step.
#[verifier::rlimit(50)]
proof fn lemma_sum_of_three(x: real, y: real, z: real, first: real, sum: real, bound: real)
    requires
        size(x) <= bound && size(y) <= bound && size(z) <= bound,
        size(first - (x + y)) <= part(size(x + y)),
        size(sum - (first + z)) <= part(size(first + z)),
    ensures
        size(sum - (x + y + z)) <= 6real * part(bound),
        size(x + y + z) <= 3real * bound,
{
    lemma_sizes_add(x, y);
    let off = 2real * part(bound);
    lemma_within(x + y, first, 2real * bound, off);
    lemma_sizes_add(first, z);
    lemma_sizes_add(x + y, z);
    lemma_sizes_add(sum - (first + z), first - (x + y));
}

#[verifier::rlimit(50)]
proof fn lemma_centre_sum(a: Binary32, b: Binary32, c: Binary32, bound: real)
    requires
        a.is_finite() && b.is_finite() && c.is_finite(),
        size(value(a)) <= bound && size(value(b)) <= bound && size(value(c)) <= bound,
        bound <= large() / 1024real,
    ensures
        near(
            a.plus(b).plus(c),
            value(a) + value(b) + value(c),
            6real * part(bound),
        ),
        size(value(a) + value(b) + value(c)) <= 3real * bound,
{
    let (x, y, z) = (value(a), value(b), value(c));
    lemma_sizes_add(x, y);
    law_value_of_sum(a, b);
    let first = value(a.plus(b));
    lemma_within(x + y, first, 2real * bound, 2real * part(bound));
    lemma_sizes_add(first, z);
    law_value_of_sum(a.plus(b), c);
    lemma_sum_of_three(x, y, z, first, value(a.plus(b).plus(c)), bound);
}

#[verifier::rlimit(50)]
proof fn lemma_over_three(sum: Binary32, exact: real, bound: real)
    requires
        near(sum, exact, 6real * part(bound)),
        size(exact) <= 3real * bound,
        bound <= large() / 1024real,
    ensures
        near(
            sum.over(Binary32::of(THREE)),
            exact / 3real,
            4real * part(bound) + unit(),
        ),
        size(exact / 3real) <= bound,
{
    law_values_of_other_constants();
    let s = value(sum);
    lemma_third(exact, s, bound);
    assert(s / value(Binary32::of(THREE)) == s / 3real);
    law_value_of_quotient(sum, Binary32::of(THREE));
    let found = value(sum.over(Binary32::of(THREE)));
    lemma_one_in_units();
    lemma_sizes_add(found - s / 3real, s / 3real - exact / 3real);
}

/// The coordinate of a centre of gravity, rounded at every step.
proof fn lemma_centre(a: Binary32, b: Binary32, c: Binary32, bound: real)
    requires
        a.is_finite() && b.is_finite() && c.is_finite(),
        size(value(a)) <= bound && size(value(b)) <= bound && size(value(c)) <= bound,
        bound <= large() / 1024real,
    ensures
        near(
            a.plus(b).plus(c).over(Binary32::of(THREE)),
            exact_centre(a, b, c),
            4real * part(bound) + unit(),
        ),
        size(exact_centre(a, b, c)) <= bound,
{
    lemma_centre_sum(a, b, c, bound);
    lemma_over_three(a.plus(b).plus(c), value(a) + value(b) + value(c), bound);
}

proof fn lemma_third(exact: real, s: real, bound: real)
    requires
        size(s - exact) <= 6real * part(bound),
        size(exact) <= 3real * bound,
    ensures
        size(s / 3real - exact / 3real) <= 2real * part(bound),
        size(exact / 3real) <= bound,
        size(s / 3real) <= bound + 2real * part(bound),
{
}

/// A triangle lies where its centre of gravity is: the place that is compared is
/// the one along the axis of that centre, up to rounding.
#[verifier::rlimit(50)]
pub proof fn law_place_is_that_of_the_centre(t: Triangle, axis: Vec3, bound: real)
    requires
        triangle_within(t, bound),
        bound <= large() / 1024real,
        point_within(axis, 9real / 8real),
    ensures
        near(
            t.centroid().dot(axis),
            exact_place(t, axis),
            32real * part(bound) + 32real * unit(),
        ),
{
    lemma_one_in_units();
    lemma_centre(t.a.x, t.b.x, t.c.x, bound);
    lemma_centre(t.a.y, t.b.y, t.c.y, bound);
    lemma_centre(t.a.z, t.b.z, t.c.z, bound);
    let centre = t.centroid();
    let (x, y, z) = (value(centre.x), value(centre.y), value(centre.z));
    let (p, q, r) = (
        exact_centre(t.a.x, t.b.x, t.c.x),
        exact_centre(t.a.y, t.b.y, t.c.y),
        exact_centre(t.a.z, t.b.z, t.c.z),
    );
    let (i, j, k) = (value(axis.x), value(axis.y), value(axis.z));
    let off = 4real * part(bound) + unit();
    let most = bound + off;
    lemma_within(p, x, bound, off);
    lemma_within(q, y, bound, off);
    lemma_within(r, z, bound, off);
    lemma_product_size(x, i, most, 9real / 8real);
    lemma_product_size(y, j, most, 9real / 8real);
    lemma_product_size(z, k, most, 9real / 8real);
    lemma_eighths(most);
    lemma_eighths(off);
    assert(dot_sizes(centre, axis) <= 3real * (most * (9real / 8real)));
    law_value_of_dot(centre, axis);
    lemma_three_sizes(x - p, y - q, z - r, i, j, k, off, 9real / 8real);
    lemma_times_difference(x, p, i);
    lemma_times_difference(y, q, j);
    lemma_times_difference(z, r, k);
    assert(exact_dot(centre, axis) - exact_place(t, axis) == (x - p) * i + (y - q) * j + (z - r)
        * k);
}

proof fn lemma_eighths(r: real)
    ensures
        r * (9real / 8real) == 9real * r / 8real,
{
    assert(r * (9real / 8real) == 9real * r / 8real) by (nonlinear_arith);
}

/// Where a cluster is parted, no centre of gravity on the left lies farther
/// along the axis than one on the right, but for rounding.
pub proof fn law_parted_centres_are_in_order(
    triangles: Seq<Triangle>,
    axis: Vec3,
    left: Seq<Triangle>,
    right: Seq<Triangle>,
    i: int,
    j: int,
    bound: real,
)
    requires
        parted(triangles, axis, left, right),
        0 <= i < left.len(),
        0 <= j < right.len(),
        triangle_within(left[i], bound),
        triangle_within(right[j], bound),
        bound <= large() / 1024real,
        point_within(axis, 9real / 8real),
    ensures
        exact_place(left[i], axis) <= exact_place(right[j], axis) + 64real * part(bound) + 64real
            * unit(),
{
    law_place_is_that_of_the_centre(left[i], axis, bound);
    law_place_is_that_of_the_centre(right[j], axis, bound);
    let (p, q) = (left[i].centroid().dot(axis), right[j].centroid().dot(axis));
    assert(place_along(left[i], axis) <= place_along(right[j], axis));
    law_rank_orders_numbers(p, q);
    law_order_of_values(p, q);
}

proof fn lemma_short_coordinate(a: real, rest: real)
    requires
        a * a + rest <= 101real / 100real,
        rest >= 0real,
    ensures
        size(a) <= 11real / 10real,
{
    assert(-(11real / 10real) <= a <= 11real / 10real) by (nonlinear_arith)
        requires
            a * a <= 101real / 100real,
    ;
}

proof fn lemma_short_row(a: real, b: real, c: real)
    requires
        a * a + b * b + c * c <= 101real / 100real,
    ensures
        size(a) <= 11real / 10real && size(b) <= 11real / 10real && size(c) <= 11real / 10real,
{
    lemma_square_size(a, size(a));
    lemma_square_size(b, size(b));
    lemma_square_size(c, size(c));
    lemma_short_coordinate(a, b * b + c * c);
    lemma_short_coordinate(b, c * c + a * a);
    lemma_short_coordinate(c, a * a + b * b);
}

proof fn lemma_bounded_triangle_is_within(t: Triangle)
    requires
        bounded_triangle(t, 169),
    ensures
        triangle_within(t, 1048576real),
{
    lemma2_to64();
    assert(pow2(20) == 1048576);
    lemma_bounded_value(t.a.x, 20);
    lemma_bounded_value(t.a.y, 20);
    lemma_bounded_value(t.a.z, 20);
    lemma_bounded_value(t.b.x, 20);
    lemma_bounded_value(t.b.y, 20);
    lemma_bounded_value(t.b.z, 20);
    lemma_bounded_value(t.c.x, 20);
    lemma_bounded_value(t.c.y, 20);
    lemma_bounded_value(t.c.z, 20);
}

/// A triangle on either side of a cluster that is parted is one of the cluster.
proof fn lemma_parted_triangle(
    triangles: Seq<Triangle>,
    axis: Vec3,
    left: Seq<Triangle>,
    right: Seq<Triangle>,
    k: int,
) -> (found: int)
    requires
        parted(triangles, axis, left, right),
        0 <= k < left.len() + right.len(),
    ensures
        0 <= found < triangles.len(),
        triangles[found] == (left + right)[k],
{
    let joined = left + right;
    joined.to_multiset_ensures();
    triangles.to_multiset_ensures();
    assert(joined.contains(joined[k]));
    assert(joined.to_multiset().count(joined[k]) > 0);
    assert(triangles.contains(joined[k]));
    choose|found: int| 0 <= found < triangles.len() && triangles[found] == joined[k]
}

/// Several triangles are split in the middle along that axis of their box along
/// which it is longest: the first part holds half of them, and no centre of
/// gravity in it lies farther along the axis than one in the other part, but for
/// rounding. Coordinates may be as great as two to the twentieth.
pub proof fn law_split_is_across_the_longest_axis(
    cluster: ClusterView,
    a: ClusterView,
    b: ClusterView,
    i: int,
    j: int,
)
    requires
        cluster == fitted(cluster.triangles),
        splits_into(cluster, a, b),
        2 <= cluster.triangles.len(),
        cluster.triangles.len() * 3 <= u64::MAX,
        bounded_triangles(cluster.triangles, 169),
        faces_are_square(cluster.triangles),
        0 <= i < a.triangles.len(),
        0 <= j < b.triangles.len(),
    ensures
        a.triangles.len() == cluster.triangles.len() / 2,
        b.triangles.len() == cluster.triangles.len() - a.triangles.len(),
        exists|axis: Vec3| #[trigger]
            lies_along_longest(
                axis,
                best_basis(cluster.triangles),
                cluster.obb.scale,
                1real / 2400real,
            ) && exact_place(a.triangles[i], axis) <= exact_place(b.triangles[j], axis) + 5real,
{
    let axis = longest_axis(cluster.obb);
    let basis = best_basis(cluster.triangles);
    law_cluster_is_parted_along_its_longest_axis(cluster.triangles);
    let m = Nine::of(basis);
    lemma_short_row(m.a, m.b, m.c);
    lemma_short_row(m.d, m.e, m.f);
    lemma_short_row(m.g, m.h, m.i);
    assert(point_within(axis, 9real / 8real));
    let (left, right) = (a.triangles, b.triangles);
    let p = lemma_parted_triangle(cluster.triangles, axis, left, right, i);
    let q = lemma_parted_triangle(cluster.triangles, axis, left, right, left.len() + j);
    assert((left + right)[i] == left[i] && (left + right)[left.len() + j] == right[j]);
    lemma_bounded_triangle_is_within(cluster.triangles[p]);
    lemma_bounded_triangle_is_within(cluster.triangles[q]);
    lemma_one_in_units();
    law_parted_centres_are_in_order(cluster.triangles, axis, left, right, i, j, 1048576real);
}

} // verus!
