//! The axes along the faces of a mesh: from which faces they are taken.
use crate::axes::{
    lemma_normal_bounded, lemma_thresholds,
};
use crate::binary32::Binary32;
use crate::bounds::{
    bounded_point, bounded_triangle, bounded_triangles, lemma_dot_bounded, lemma_looser_point,
    lemma_point_sum_bounded, lemma_scaled_bounded,
};
use crate::closeness::coordinate;
use crate::directions::{
    exact_dot, law_value_of_dot, lemma_image_coordinates, lemma_nearly_unit_coordinates,
    lemma_normalize, lemma_product_size, lemma_sizes_add, lemma_square_size, lemma_within,
    nearly_unit,
};
use crate::fitting::{
    face_basis, first_index, has_normal, normal_across, tilted_against, NO_DIRECTION,
};
use crate::images::{finite_vector, value_at};
use crate::triangle::{triangle_normal, Triangle};
use crate::value::{
    large, law_order_of_values, law_value_of_product, law_value_of_sum, lemma_bounded_value,
    lemma_one_in_units, near, part, size, unit, value,
};
use crate::vector::{Mat3, Vec3};
use vstd::arithmetic::power2::{lemma2_to64, lemma2_to64_rest, pow2};
use vstd::prelude::*;

verus! {

/// The first index is one at which a condition is met, and it is met at none
/// before; without a first index it is met nowhere.
pub proof fn law_first_index_is_first(
    triangles: Seq<Triangle>,
    condition: spec_fn(Triangle) -> bool,
    k: int,
)
    requires
        0 <= k < triangles.len(),
    ensures
        match first_index(triangles, condition) {
            Some(i) => 0 <= i < triangles.len() && condition(triangles[i]) && (k < i
                ==> !condition(triangles[k])),
            None => !condition(triangles[k]),
        },
    decreases triangles.len(),
{
    let shorter = triangles.drop_last();
    if k < shorter.len() {
        law_first_index_is_first(shorter, condition, k);
        assert(shorter[k] == triangles[k]);
        if let Some(i) = first_index(shorter, condition) {
            assert(shorter[i] == triangles[i]);
        }
    } else if shorter.len() > 0 {
        law_first_index_is_first(shorter, condition, 0);
        if let Some(i) = first_index(shorter, condition) {
            assert(shorter[i] == triangles[i]);
        }
    }
}

/// Whether a vector points the way of another one and has a length of one, but
/// for rounding.
pub open spec fn points_along(unit_vector: Vec3, v: Vec3) -> bool {
    &&& nearly_unit(unit_vector)
    &&& exists|q: real| #[trigger] stretched_to(unit_vector, v, q)
}

/// Whether a vector is another one times a positive factor, but for two parts in
/// two to the twenty-fourth.
pub open spec fn stretched_to(w: Vec3, v: Vec3, q: real) -> bool {
    &&& q > 0real
    &&& size(value(w.x) - q * value(v.x)) <= 2real * part(1real)
    &&& size(value(w.y) - q * value(v.y)) <= 2real * part(1real)
    &&& size(value(w.z) - q * value(v.z)) <= 2real * part(1real)
}

/// A vector that is made one of unit length keeps its direction.
pub proof fn law_normalized_vector_keeps_its_direction(v: Vec3)
    requires
        bounded_point(v, 209),
        v.length_squared().is_finite() ==> value(v.length_squared()) >= 1real / 1099511627776real,
    ensures
        points_along(v.normalize(), v),
{
    lemma_one_in_units();
    let q = lemma_normalize(v);
    lemma_image_coordinates(q, v);
    assert(stretched_to(v.normalize(), v, q));
}

/// The squared length of a vector that is not long, against the bound below which
/// it has no direction.
proof fn lemma_against_bound(v: Vec3)
    requires
        bounded_point(v, 209),
    ensures
        v.length_squared().is_finite(),
        Binary32::of(NO_DIRECTION).lt(v.length_squared()) ==> exact_dot(v, v) >= 1real
            / 2199023255552real && value(v.length_squared()) >= 1real / 1099511627776real,
        !v.length_squared().le(Binary32::of(NO_DIRECTION)) ==> exact_dot(v, v) >= 1real
            / 2199023255552real && value(v.length_squared()) >= 1real / 1099511627776real,
        !Binary32::of(NO_DIRECTION).lt(v.length_squared()) ==> exact_dot(v, v) <= 1real
            / 274877906944real,
        v.length_squared().le(Binary32::of(NO_DIRECTION)) ==> exact_dot(v, v) <= 1real
            / 274877906944real,
{
    lemma_one_in_units();
    lemma_thresholds();
    lemma2_to64();
    lemma2_to64_rest();
    let big = 1152921504606846976real;
    assert(pow2(60) == 1152921504606846976);
    lemma_bounded_value(v.x, 60);
    lemma_bounded_value(v.y, 60);
    lemma_bounded_value(v.z, 60);
    lemma_square_size(value(v.x), big);
    lemma_square_size(value(v.y), big);
    lemma_square_size(value(v.z), big);
    assert(big * big == 1329227995784915872903807060280344576real) by (nonlinear_arith)
        requires
            big == 1152921504606846976real,
    ;
    law_value_of_dot(v, v);
    law_order_of_values(Binary32::of(NO_DIRECTION), v.length_squared());
    law_order_of_values(v.length_squared(), Binary32::of(NO_DIRECTION));
}

proof fn lemma_across_bounded(t: Triangle, x: Vec3)
    requires
        bounded_triangle(t, 169),
        nearly_unit(x),
    ensures
        bounded_point(normal_across(t, x), 209),
        bounded_point(triangle_normal(t), 209),
{
    let normal = triangle_normal(t);
    lemma_normal_bounded(t);
    lemma_dot_bounded(normal, x, 192, 150);
    lemma_scaled_bounded(x, normal.dot(x), 150, 195);
    lemma_looser_point(normal, 192, 196);
    lemma_looser_point(normal, 192, 209);
    lemma_point_sum_bounded(normal, x.scaled(normal.dot(x)), 196);
    lemma_looser_point(normal_across(t, x), 197, 209);
}

/// Whether a triangle is too small for its normal to tell a direction.
pub open spec fn hardly_a_face(t: Triangle) -> bool {
    exact_dot(triangle_normal(t), triangle_normal(t)) <= 1real / 274877906944real
}

/// Whether a triangle is nearly parallel to the faces across a direction.
pub open spec fn hardly_tilted(t: Triangle, x: Vec3) -> bool {
    exact_dot(normal_across(t, x), normal_across(t, x)) <= 1real / 274877906944real
}

/// Whether axes are those of two faces: the first one along the normal of the
/// first triangle that is a face, the second one along what the normal of the
/// first triangle that is tilted against it has at right angles to it.
pub open spec fn taken_from(x: Vec3, y: Vec3, triangles: Seq<Triangle>, i: int, j: int) -> bool {
    &&& 0 <= i < triangles.len()
    &&& 0 <= j < triangles.len()
    &&& points_along(x, triangle_normal(triangles[i]))
    &&& forall|k: int| 0 <= k < i ==> hardly_a_face(#[trigger] triangles[k])
    &&& points_along(y, normal_across(triangles[j], x))
    &&& forall|k: int| 0 <= k < j ==> hardly_tilted(#[trigger] triangles[k], x)
}

/// Whether no triangle is a face.
pub open spec fn no_faces(triangles: Seq<Triangle>) -> bool {
    forall|k: int| 0 <= k < triangles.len() ==> hardly_a_face(#[trigger] triangles[k])
}

/// Whether a triangle is the first face and no other one is tilted against it.
pub open spec fn no_second_face(triangles: Seq<Triangle>, i: int) -> bool {
    let x = triangle_normal(triangles[i]).normalize();
    &&& 0 <= i < triangles.len()
    &&& points_along(x, triangle_normal(triangles[i]))
    &&& forall|k: int| 0 <= k < i ==> hardly_a_face(#[trigger] triangles[k])
    &&& forall|k: int| 0 <= k < triangles.len() ==> hardly_tilted(#[trigger] triangles[k], x)
}

/// Whether axes are those of two faces of some triangles.
pub open spec fn has_two_faces(triangles: Seq<Triangle>, basis: Mat3) -> bool {
    exists|i: int, j: int| #[trigger] taken_from(basis.x_axis, basis.y_axis, triangles, i, j)
}

/// Whether some triangles have a face, and none that is tilted against it.
pub open spec fn has_one_face(triangles: Seq<Triangle>) -> bool {
    exists|i: int| #[trigger] no_second_face(triangles, i)
}

/// Axes along faces are taken from the first face and from the first that is
/// tilted against it. Where there are none, no triangle is a face, or none is
/// tilted against the first face. Coordinates may be as great as two to the
/// twentieth.
#[verifier::rlimit(50)]
pub proof fn law_face_axes_are_taken_from_the_first_faces(triangles: Seq<Triangle>)
    requires
        bounded_triangles(triangles, 169),
    ensures
        match face_basis(triangles) {
            Some(basis) => has_two_faces(triangles, basis),
            None => no_faces(triangles) || has_one_face(triangles),
        },
{
    let first = |t: Triangle| has_normal(t);
    assert forall|k: int| 0 <= k < triangles.len() implies {
        &&& !has_normal(triangles[k]) ==> hardly_a_face(#[trigger] triangles[k])
        &&& match first_index(triangles, first) {
            Some(i) => 0 <= i < triangles.len() && has_normal(triangles[i]) && (k < i
                ==> !has_normal(triangles[k])),
            None => !has_normal(triangles[k]),
        }
    } by {
        law_first_index_is_first(triangles, first, k);
        assert(bounded_triangle(triangles[k], 169));
        lemma_normal_bounded(triangles[k]);
        lemma_looser_point(triangle_normal(triangles[k]), 192, 209);
        lemma_against_bound(triangle_normal(triangles[k]));
    }
    if let Some(i) = first_index(triangles, first) {
        lemma_found(triangles, first);
        let normal = triangle_normal(triangles[i]);
        assert(bounded_triangle(triangles[i], 169));
        assert(has_normal(triangles[i]));
        lemma_normal_bounded(triangles[i]);
        lemma_looser_point(normal, 192, 209);
        lemma_against_bound(normal);
        law_normalized_vector_keeps_its_direction(normal);
        let x = normal.normalize();
        let second = |t: Triangle| tilted_against(t, x);
        assert forall|k: int| 0 <= k < triangles.len() implies {
            &&& !tilted_against(triangles[k], x) ==> hardly_tilted(#[trigger] triangles[k], x)
            &&& match first_index(triangles, second) {
                Some(j) => 0 <= j < triangles.len() && tilted_against(triangles[j], x) && (k < j
                    ==> !tilted_against(triangles[k], x)),
                None => !tilted_against(triangles[k], x),
            }
        } by {
            law_first_index_is_first(triangles, second, k);
            assert(bounded_triangle(triangles[k], 169));
            lemma_across_bounded(triangles[k], x);
            lemma_against_bound(normal_across(triangles[k], x));
        }
        if let Some(j) = first_index(triangles, second) {
            lemma_found(triangles, second);
            let across = normal_across(triangles[j], x);
            assert(bounded_triangle(triangles[j], 169));
            assert(tilted_against(triangles[j], x));
            lemma_across_bounded(triangles[j], x);
            lemma_against_bound(across);
            law_normalized_vector_keeps_its_direction(across);
            let y = across.normalize();
            let basis = Mat3::from_cols(x, y, x.cross(y));
            assert(taken_from(basis.x_axis, basis.y_axis, triangles, i, j));
            assert(has_two_faces(triangles, basis));
        } else {
            assert(no_second_face(triangles, i));
            assert(has_one_face(triangles));
        }
    } else {
        assert(no_faces(triangles));
    }
}

proof fn lemma_found(triangles: Seq<Triangle>, condition: spec_fn(Triangle) -> bool)
    requires
        first_index(triangles, condition) is Some,
    ensures
        triangles.len() > 0,
        0 <= first_index(triangles, condition)->0 < triangles.len(),
{
    law_first_index_is_first(triangles, condition, 0);
}

/// What a vector has at right angles to a unit vector, in one coordinate.
pub open spec fn exact_across(v: Vec3, x: Vec3, axis: int) -> real {
    value_at(v, axis) - value_at(x, axis) * exact_dot(v, x)
}

#[verifier::rlimit(50)]
proof fn lemma_across_coordinate(
    n: Binary32,
    x: Binary32,
    d: Binary32,
    exact: real,
    most: real,
)
    requires
        n.is_finite() && x.is_finite(),
        size(value(n)) <= most,
        size(value(x)) <= 11real / 10real,
        near(d, exact, 17real * part(most) + 4real * unit()),
        size(exact) <= 33real * most / 10real,
        0real <= most <= large() / 1024real,
    ensures
        near(
            n.minus(x.times(d)),
            value(n) - value(x) * exact,
            32real * part(most) + 8real * unit(),
        ),
{
    lemma_one_in_units();
    let (p, q, r) = (value(n), value(x), value(d));
    let (off, u) = (17real * part(most), unit());
    lemma_within(exact, r, 33real * most / 10real, off + 4real * u);
    lemma_product_size(q, r, 11real / 10real, 34real * most / 10real + 4real * u);
    lemma_product_size(q, r - exact, 11real / 10real, off + 4real * u);
    lemma_eleven_tenths(34real * most / 10real + 4real * u);
    lemma_eleven_tenths(off + 4real * u);
    assert(q * (r - exact) == q * r - q * exact) by (nonlinear_arith);
    law_value_of_product(x, d);
    let z = value(x.times(d));
    lemma_sizes_add(z - q * r, q * r - q * exact);
    lemma_within(q * r, z, 374real * most / 100real + 5real * u, 4real * part(most) + u);
    lemma_sizes_add(p, z);
    law_value_of_sum(n, x.times(d));
    lemma_sizes_add(value(n.minus(x.times(d))) - (p - z), z - q * exact);
}

proof fn lemma_eleven_tenths(r: real)
    ensures
        (11real / 10real) * r == 11real * r / 10real,
{
    assert((11real / 10real) * r == 11real * r / 10real) by (nonlinear_arith);
}

/// What is left of a vector once its part along a unit vector is taken away is at
/// right angles to that one: the exact rest, but for rounding. This is how a
/// normal is seen against a face.
#[verifier::rlimit(50)]
pub proof fn law_rest_is_across(v: Vec3, x: Vec3, axis: int, most: real)
    requires
        nearly_unit(x),
        finite_vector(v),
        size(value(v.x)) <= most && size(value(v.y)) <= most && size(value(v.z)) <= most,
        most <= large() / 1024real,
        0 <= axis < 3,
    ensures
        near(
            coordinate(v.minus(x.scaled(v.dot(x))), axis),
            exact_across(v, x, axis),
            32real * part(most) + 8real * unit(),
        ),
{
    lemma_one_in_units();
    lemma_nearly_unit_coordinates(x);
    lemma_product_size(value(v.x), value(x.x), most, 11real / 10real);
    lemma_product_size(value(v.y), value(x.y), most, 11real / 10real);
    lemma_product_size(value(v.z), value(x.z), most, 11real / 10real);
    assert(most * (11real / 10real) == 11real * most / 10real) by (nonlinear_arith);
    law_value_of_dot(v, x);
    lemma_sizes_add(value(v.x) * value(x.x), value(v.y) * value(x.y));
    lemma_sizes_add(
        value(v.x) * value(x.x) + value(v.y) * value(x.y),
        value(v.z) * value(x.z),
    );
    lemma_across_coordinate(
        coordinate(v, axis),
        coordinate(x, axis),
        v.dot(x),
        exact_dot(v, x),
        most,
    );
}

} // verus!
