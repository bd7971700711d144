//! Boxes are no larger than their triangles ask for, and of the boxes that may
//! stand for a cluster the closest does.
use crate::binary32::Binary32;
use crate::bounds::lemma_below_infinity;
use crate::cluster::{best_box, fitted};
use crate::exact::measurable;
use crate::fitting::{
    bounding_box, face_basis, highest, is_corner, law_surface_error_is_a_number, lowest,
    mean_corner, principal_box, surface_error,
};
use crate::triangle::Triangle;
use crate::value::{law_value_of_finite_difference, near, part, size, value};
use crate::vector::{Mat3, Vec3};
use vstd::prelude::*;

verus! {

/// A coordinate of a vector, by the number of its axis.
pub open spec fn coordinate(v: Vec3, axis: int) -> Binary32 {
    if axis == 0 {
        v.x
    } else if axis == 1 {
        v.y
    } else {
        v.z
    }
}

/// Whether some triangles have a corner.
pub open spec fn have_corner(triangles: Seq<Triangle>, corner: Vec3) -> bool {
    exists|i: int| 0 <= i < triangles.len() && #[trigger] is_corner(triangles[i], corner)
}

/// A corner, seen from a point along the rows of a matrix.
pub open spec fn seen(corner: Vec3, inverse: Mat3, mean: Vec3) -> Vec3 {
    inverse.apply(corner.minus(mean))
}

proof fn lemma_longer_has_corner(triangles: Seq<Triangle>, corner: Vec3)
    requires
        triangles.len() > 0,
        have_corner(triangles.drop_last(), corner) || is_corner(triangles.last(), corner),
    ensures
        have_corner(triangles, corner),
{
    if have_corner(triangles.drop_last(), corner) {
        let i = choose|i: int|
            0 <= i < triangles.len() - 1 && #[trigger] is_corner(triangles.drop_last()[i], corner);
        assert(is_corner(triangles[i], corner));
    } else {
        assert(is_corner(triangles[triangles.len() - 1], corner));
    }
}

/// The least coordinate is that of a corner.
proof fn lemma_lowest_is_a_corner(
    triangles: Seq<Triangle>,
    inverse: Mat3,
    mean: Vec3,
    axis: int,
) -> (corner: Vec3)
    requires
        triangles.len() > 0,
    ensures
        have_corner(triangles, corner),
        coordinate(lowest(triangles, inverse, mean), axis) == coordinate(
            seen(corner, inverse, mean),
            axis,
        ),
    decreases triangles.len(),
{
    reveal(Binary32::spec_lt);
    let (shorter, t) = (triangles.drop_last(), triangles.last());
    let found = coordinate(lowest(triangles, inverse, mean), axis);
    assert(is_corner(t, t.a) && is_corner(t, t.b) && is_corner(t, t.c));
    lemma_longer_has_corner(triangles, t.a);
    lemma_longer_has_corner(triangles, t.b);
    lemma_longer_has_corner(triangles, t.c);
    if found == coordinate(seen(t.c, inverse, mean), axis) {
        t.c
    } else if found == coordinate(seen(t.b, inverse, mean), axis) {
        t.b
    } else if found == coordinate(seen(t.a, inverse, mean), axis) {
        t.a
    } else {
        assert(found == coordinate(lowest(shorter, inverse, mean), axis));
        let first = coordinate(seen(t.a, inverse, mean), axis);
        if first.is_finite() {
            lemma_below_infinity(first);
        }
        let corner = lemma_lowest_is_a_corner(shorter, inverse, mean, axis);
        lemma_longer_has_corner(triangles, corner);
        corner
    }
}

/// The greatest coordinate is that of a corner.
proof fn lemma_highest_is_a_corner(
    triangles: Seq<Triangle>,
    inverse: Mat3,
    mean: Vec3,
    axis: int,
) -> (corner: Vec3)
    requires
        triangles.len() > 0,
    ensures
        have_corner(triangles, corner),
        coordinate(highest(triangles, inverse, mean), axis) == coordinate(
            seen(corner, inverse, mean),
            axis,
        ),
    decreases triangles.len(),
{
    reveal(Binary32::spec_lt);
    let (shorter, t) = (triangles.drop_last(), triangles.last());
    let found = coordinate(highest(triangles, inverse, mean), axis);
    assert(is_corner(t, t.a) && is_corner(t, t.b) && is_corner(t, t.c));
    lemma_longer_has_corner(triangles, t.a);
    lemma_longer_has_corner(triangles, t.b);
    lemma_longer_has_corner(triangles, t.c);
    if found == coordinate(seen(t.c, inverse, mean), axis) {
        t.c
    } else if found == coordinate(seen(t.b, inverse, mean), axis) {
        t.b
    } else if found == coordinate(seen(t.a, inverse, mean), axis) {
        t.a
    } else {
        assert(found == coordinate(highest(shorter, inverse, mean), axis));
        let first = coordinate(seen(t.a, inverse, mean), axis);
        if first.is_finite() {
            lemma_below_infinity(first);
        }
        let corner = lemma_highest_is_a_corner(shorter, inverse, mean, axis);
        lemma_longer_has_corner(triangles, corner);
        corner
    }
}

/// Whether an extent is the difference of the coordinates that two corners have
/// along an axis, but for one rounding.
pub open spec fn spanned(
    extent: Binary32,
    triangles: Seq<Triangle>,
    inverse: Mat3,
    mean: Vec3,
    axis: int,
) -> bool {
    exists|far: Vec3, near_one: Vec3|
        #![trigger seen(far, inverse, mean), seen(near_one, inverse, mean)]
        {
            let (p, q) = (
                value(coordinate(seen(far, inverse, mean), axis)),
                value(coordinate(seen(near_one, inverse, mean), axis)),
            );
            &&& have_corner(triangles, far)
            &&& have_corner(triangles, near_one)
            &&& near(extent, p - q, part(size(p - q)))
        }
}

/// A box is no larger than its corners ask for: along each of its axes its
/// extent is how far two of them lie apart, but for one rounding.
pub proof fn law_box_is_spanned_by_corners(triangles: Seq<Triangle>, basis: Mat3, axis: int)
    requires
        triangles.len() > 0,
        measurable(triangles, basis),
        0 <= axis < 3,
    ensures
        spanned(
            coordinate(bounding_box(triangles, basis).scale, axis),
            triangles,
            basis.transpose(),
            mean_corner(triangles),
            axis,
        ),
{
    reveal(bounding_box);
    let (inverse, mean) = (basis.transpose(), mean_corner(triangles));
    let p = lemma_highest_is_a_corner(triangles, inverse, mean, axis);
    let q = lemma_lowest_is_a_corner(triangles, inverse, mean, axis);
    let high = coordinate(highest(triangles, inverse, mean), axis);
    let low = coordinate(lowest(triangles, inverse, mean), axis);
    law_value_of_finite_difference(high, low);
    assert(have_corner(triangles, p) && have_corner(triangles, q));
    assert(coordinate(seen(p, inverse, mean), axis) == high);
    assert(coordinate(seen(q, inverse, mean), axis) == low);
}

/// The box of a cluster is one along its principal axes or along its faces, and
/// follows the triangles no less closely than either. Fewer than four triangles
/// have a box along their principal axes.
pub proof fn law_closest_box_stands_for_a_cluster(triangles: Seq<Triangle>)
    ensures
        fitted(triangles).triangles == triangles,
        fitted(triangles).surface_error == surface_error(triangles, fitted(triangles).obb),
        fitted(triangles).surface_error.le(surface_error(triangles, principal_box(triangles))),
        triangles.len() < 4 || face_basis(triangles) is None ==> fitted(triangles).obb
            == principal_box(triangles),
        triangles.len() >= 4 ==> (face_basis(triangles) matches Some(basis) ==> {
            let candidate = bounding_box(triangles, basis);
            &&& fitted(triangles).surface_error.le(surface_error(triangles, candidate))
            &&& fitted(triangles).obb == candidate || fitted(triangles).obb == principal_box(
                triangles,
            )
            &&& surface_error(triangles, principal_box(triangles)).le(
                surface_error(triangles, candidate),
            ) ==> fitted(triangles).obb == principal_box(triangles)
        }),
{
    reveal(best_box);
    reveal(Binary32::spec_lt);
    reveal(Binary32::spec_le);
    law_surface_error_is_a_number(triangles, principal_box(triangles));
    if let Some(basis) = face_basis(triangles) {
        law_surface_error_is_a_number(triangles, bounding_box(triangles, basis));
    }
}

} // verus!
