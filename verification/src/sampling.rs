//! What the surface error of a box says of its surface.
//!
//! The surface of a box is looked at in its corners and in the middles of its
//! edges and faces. Each of these lies, from the centre, minus one, nought or
//! one half extents along each axis.
use crate::arithmetic::{
    law_root_keeps_order, law_square_is_not_negative, law_sum_is_not_negative,
};
use crate::binary32::{Binary32, HALF, NEG_ONE, ONE, ZERO};
use crate::fitting::{
    clearance, grid_coordinate, grid_point, law_worst_clearance_bounds_the_surface,
    lemma_worst_clearance_grows, surface_error, worst_clearance, BoxTransform, GRID_CENTRE,
    GRID_POINTS,
};
use crate::rounding::{lemma_units_at_least, lemma_units_increase};
use crate::triangle::{nearest_offset, Triangle};
use crate::vector::Vec3;
use vstd::prelude::*;

verus! {

/// Whether a number is minus one, nought or one.
pub open spec fn whole_step(x: Binary32) -> bool {
    x == Binary32::of(NEG_ONE) || x == Binary32::of(ZERO) || x == Binary32::of(ONE)
}

/// Whether steps lead from the centre of a box to its surface: to a corner, or
/// to the middle of an edge or a face.
pub open spec fn leads_to_surface(x: Binary32, y: Binary32, z: Binary32) -> bool {
    &&& whole_step(x)
    &&& whole_step(y)
    &&& whole_step(z)
    &&& x != Binary32::of(ZERO) || y != Binary32::of(ZERO) || z != Binary32::of(ZERO)
}

/// The point so many half extents from the centre of a box along its axes.
pub open spec fn surface_point(obb: BoxTransform, x: Binary32, y: Binary32, z: Binary32) -> Vec3 {
    obb.position.plus(
        obb.rotation.basis().apply(
            obb.scale.scaled(Binary32::of(HALF)).times(Vec3::new(x, y, z)),
        ),
    )
}

/// The measured distance between a point and a triangle.
pub open spec fn distance(point: Vec3, t: Triangle) -> Binary32 {
    nearest_offset(point, t).length_squared().root()
}

spec fn step_number(x: Binary32) -> usize {
    if x == Binary32::of(NEG_ONE) {
        0
    } else if x == Binary32::of(ZERO) {
        1
    } else {
        2
    }
}

/// Every step to the surface is one to a grid point.
proof fn lemma_surface_point_is_on_the_grid(
    obb: BoxTransform,
    x: Binary32,
    y: Binary32,
    z: Binary32,
) -> (k: usize)
    requires
        leads_to_surface(x, y, z),
    ensures
        k < GRID_POINTS,
        k != GRID_CENTRE,
        grid_point(obb, k) == surface_point(obb, x, y, z),
{
    let (a, b, c) = (step_number(x), step_number(y), step_number(z));
    let k = (9 * a + 3 * b + c) as usize;
    assert(k / 9 == a);
    assert(k / 3 % 3 == b);
    assert(k % 3 == c);
    assert(grid_coordinate(a) == x && grid_coordinate(b) == y && grid_coordinate(c) == z);
    k
}

/// Every grid point but the centre is one on the surface.
proof fn lemma_grid_point_is_on_the_surface(obb: BoxTransform, k: usize) -> (steps: (
    Binary32,
    Binary32,
    Binary32,
))
    requires
        k < GRID_POINTS,
        k != GRID_CENTRE,
    ensures
        leads_to_surface(steps.0, steps.1, steps.2),
        grid_point(obb, k) == surface_point(obb, steps.0, steps.1, steps.2),
{
    let (x, y, z) = (
        grid_coordinate(k / 9),
        grid_coordinate(k / 3 % 3),
        grid_coordinate(k % 3),
    );
    if x == Binary32::of(ZERO) && y == Binary32::of(ZERO) && z == Binary32::of(ZERO) {
        assert(k / 9 == 1 && k / 3 % 3 == 1 && k % 3 == 1);
        assert(k == 13);
    }
    (x, y, z)
}

/// A squared length is not negative.
pub proof fn law_squared_length_is_not_negative(v: Vec3)
    ensures
        v.length_squared().is_nan() || !v.length_squared().negative(),
{
    law_square_is_not_negative(v.x);
    law_square_is_not_negative(v.y);
    law_square_is_not_negative(v.z);
    law_sum_is_not_negative(v.x.times(v.x), v.y.times(v.y));
    law_sum_is_not_negative(v.x.times(v.x).plus(v.y.times(v.y)), v.z.times(v.z));
}

/// The clearance of a point is one of its distances and none is lesser, as far
/// as these are numbers; where none is, it is infinite.
proof fn lemma_clearance(triangles: Seq<Triangle>, point: Vec3)
    ensures
        !clearance(triangles, point).is_nan(),
        !clearance(triangles, point).negative(),
        clearance(triangles, point).infinite() || exists|i: int|
            0 <= i < triangles.len() && clearance(triangles, point) == nearest_offset(
                point,
                #[trigger] triangles[i],
            ).length_squared(),
        forall|i: int|
            0 <= i < triangles.len() && !nearest_offset(
                point,
                #[trigger] triangles[i],
            ).length_squared().is_nan() ==> clearance(triangles, point).le(
                nearest_offset(point, triangles[i]).length_squared(),
            ),
    decreases triangles.len(),
{
    reveal(Binary32::spec_lt);
    reveal(Binary32::spec_le);
    if triangles.len() > 0 {
        let before = triangles.drop_last();
        let last = triangles.len() - 1;
        lemma_clearance(before, point);
        let d = nearest_offset(point, triangles.last()).length_squared();
        law_squared_length_is_not_negative(nearest_offset(point, triangles.last()));
        let found = clearance(triangles, point);
        if found == clearance(before, point) {
            if !found.infinite() {
                let i = choose|i: int|
                    0 <= i < before.len() && clearance(before, point) == nearest_offset(
                        point,
                        #[trigger] before[i],
                    ).length_squared();
                assert(triangles[i] == before[i]);
            }
        } else {
            assert(found == d && triangles[last] == triangles.last());
        }
        assert forall|i: int|
            0 <= i < triangles.len() && !nearest_offset(
                point,
                #[trigger] triangles[i],
            ).length_squared().is_nan() implies found.le(
            nearest_offset(point, triangles[i]).length_squared(),
        ) by {
            if i < last {
                assert(before[i] == triangles[i]);
            }
        }
    }
}

/// No point of the surface that is looked at is farther from all triangles than
/// the surface error: each corner and each middle of an edge or a face has a
/// triangle within it, unless it is infinite.
pub proof fn law_surface_error_reaches_every_point(
    triangles: Seq<Triangle>,
    obb: BoxTransform,
    x: Binary32,
    y: Binary32,
    z: Binary32,
)
    requires
        leads_to_surface(x, y, z),
    ensures
        surface_error(triangles, obb).infinite() || exists|i: int|
            0 <= i < triangles.len() && distance(
                surface_point(obb, x, y, z),
                #[trigger] triangles[i],
            ).le(surface_error(triangles, obb)),
{
    reveal(surface_error);
    let k = lemma_surface_point_is_on_the_grid(obb, x, y, z);
    let point = surface_point(obb, x, y, z);
    let worst = worst_clearance(triangles, obb, GRID_POINTS as nat);
    law_worst_clearance_bounds_the_surface(triangles, obb, k as nat);
    lemma_clearance(triangles, point);
    assert(!worst.negative()) by {
        lemma_worst_clearance_grows(triangles, obb, 0, GRID_POINTS as nat);
    }
    law_root_keeps_order(clearance(triangles, point), worst);
    if clearance(triangles, point).infinite() {
        reveal(Binary32::spec_le);
        reveal(Binary32::spec_root);
        if worst.is_finite() {
            lemma_units_increase(
                worst.magnitude(),
                clearance(triangles, point).magnitude(),
            );
        }
        assert(worst.infinite());
    } else {
        let i = choose|i: int|
            0 <= i < triangles.len() && clearance(triangles, point) == nearest_offset(
                point,
                #[trigger] triangles[i],
            ).length_squared();
        assert(distance(point, triangles[i]).le(surface_error(triangles, obb)));
    }
}

/// The worst clearance is nought or that of a grid point on the surface.
proof fn lemma_worst_clearance_is_one(triangles: Seq<Triangle>, obb: BoxTransform, count: nat) -> (k:
    usize)
    requires
        count <= GRID_POINTS,
    ensures
        k < GRID_POINTS,
        k != GRID_CENTRE,
        worst_clearance(triangles, obb, count) == Binary32::of(ZERO) || worst_clearance(
            triangles,
            obb,
            count,
        ) == clearance(triangles, grid_point(obb, k)),
    decreases count,
{
    if count == 0 {
        0
    } else {
        let last = (count - 1) as nat;
        let k = lemma_worst_clearance_is_one(triangles, obb, last);
        if last != GRID_CENTRE && worst_clearance(triangles, obb, count) == clearance(
            triangles,
            grid_point(obb, last as usize),
        ) {
            last as usize
        } else {
            k
        }
    }
}

/// The surface error is not greater than it has to be: some corner or middle of
/// an edge or a face is that far from every triangle.
pub proof fn law_surface_error_is_needed(triangles: Seq<Triangle>, obb: BoxTransform)
    ensures
        exists|x: Binary32, y: Binary32, z: Binary32| #[trigger]
            leads_to_surface(x, y, z) && forall|i: int|
                0 <= i < triangles.len() && !distance(
                    surface_point(obb, x, y, z),
                    #[trigger] triangles[i],
                ).is_nan() ==> surface_error(triangles, obb).le(
                    distance(surface_point(obb, x, y, z), triangles[i]),
                ),
{
    reveal(surface_error);
    let k = lemma_worst_clearance_is_one(triangles, obb, GRID_POINTS as nat);
    let worst = worst_clearance(triangles, obb, GRID_POINTS as nat);
    let (x, y, z) = lemma_grid_point_is_on_the_surface(obb, k);
    let point = surface_point(obb, x, y, z);
    lemma_clearance(triangles, point);
    assert(leads_to_surface(x, y, z));
    assert forall|i: int|
        0 <= i < triangles.len() && !distance(point, #[trigger] triangles[i]).is_nan() implies
        surface_error(triangles, obb).le(distance(point, triangles[i])) by {
        let d = nearest_offset(point, triangles[i]).length_squared();
        law_squared_length_is_not_negative(nearest_offset(point, triangles[i]));
        assert(!d.is_nan()) by {
            reveal(Binary32::spec_root);
        }
        assert(worst.le(d)) by {
            reveal(Binary32::spec_le);
            lemma_units_at_least(d.magnitude());
        }
        law_root_keeps_order(worst, d);
    }
}

} // verus!
