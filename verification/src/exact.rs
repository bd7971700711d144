//! Exact coordinates, and how closely rounded geometry follows them.
//!
//! Every finite coordinate is a whole number of units, so what a rounded result
//! misses can be told exactly.
use crate::arithmetic::{law_difference_is_nearly_exact, law_middle_is_nearly_exact};
use crate::binary32::{absolute, Binary32, HALF};
use crate::cluster::{best_box, fitted};
use crate::fitting::{
    bounding_box, corner_count, face_basis, highest, is_corner, law_bounds_hold_every_corner,
    lowest, mean_corner, moments_about, principal_basis, principal_box, seen_as_numbers,
    surface_error, BoxTransform,
};
use crate::rounding::SIGNIFICAND_LIMIT;
use crate::triangle::{halves, Triangle};
use crate::vector::{Mat3, Quat, Vec3};
use vstd::prelude::*;

verus! {

/// A vector of whole numbers.
pub struct Exact3 {
    pub x: int,
    pub y: int,
    pub z: int,
}

impl Exact3 {
    /// A point, its coordinates counted in units.
    pub open spec fn of(v: Vec3) -> Exact3 {
        Exact3 { x: v.x.units(), y: v.y.units(), z: v.z.units() }
    }

    pub open spec fn plus(self, other: Exact3) -> Exact3 {
        Exact3 { x: self.x + other.x, y: self.y + other.y, z: self.z + other.z }
    }

    pub open spec fn minus(self, other: Exact3) -> Exact3 {
        Exact3 { x: self.x - other.x, y: self.y - other.y, z: self.z - other.z }
    }

    pub open spec fn doubled(self) -> Exact3 {
        Exact3 { x: 2 * self.x, y: 2 * self.y, z: 2 * self.z }
    }

    pub open spec fn scaled(self, factor: int) -> Exact3 {
        Exact3 { x: self.x * factor, y: self.y * factor, z: self.z * factor }
    }

    pub open spec fn dot(self, other: Exact3) -> int {
        self.x * other.x + self.y * other.y + self.z * other.z
    }

    pub open spec fn length_squared(self) -> int {
        self.dot(self)
    }

    pub open spec fn cross(self, other: Exact3) -> Exact3 {
        Exact3 {
            x: self.y * other.z - self.z * other.y,
            y: self.z * other.x - self.x * other.z,
            z: self.x * other.y - self.y * other.x,
        }
    }
}

/// The exact vector perpendicular to a triangle that is as long as twice its
/// area and tells its winding.
pub open spec fn exact_normal(t: Triangle) -> Exact3 {
    let a = Exact3::of(t.a);
    Exact3::of(t.b).minus(a).cross(Exact3::of(t.c).minus(a))
}

/// Twice the way from the exact middle of two points to a point that stands
/// for it.
pub open spec fn slip(p: Vec3, q: Vec3, middle: Vec3) -> Exact3 {
    Exact3::of(middle).doubled().minus(Exact3::of(p).plus(Exact3::of(q)))
}

/// Whether every coordinate is finite.
pub open spec fn finite(v: Vec3) -> bool {
    v.x.is_finite() && v.y.is_finite() && v.z.is_finite()
}

/// Whether a slip is no greater than rounding makes it: one unit and three
/// parts in two to the twenty-fourth of the sum of the coordinates.
pub open spec fn slips_by_rounding(slip: int, sum: int) -> bool {
    SIGNIFICAND_LIMIT * absolute(slip) <= SIGNIFICAND_LIMIT + 3 * absolute(sum)
}

/// A triangle is cut across a longest edge: none is longer than the one whose
/// middle is the corner that both halves share. The corners keep their order,
/// and both halves keep the corner opposite to the cut.
pub proof fn law_cut_edge_is_longest(t: Triangle)
    requires
        !t.a.distance_squared(t.b).is_nan(),
        !t.b.distance_squared(t.c).is_nan(),
        !t.c.distance_squared(t.a).is_nan(),
    ensures
        ({
            let (p, q, r) = t.from_longest_edge();
            let (first, second) = halves(t);
            let middle = p.plus(q).scaled(Binary32::of(HALF));
            &&& (p, q, r) == (t.a, t.b, t.c) || (p, q, r) == (t.b, t.c, t.a) || (p, q, r) == (
                t.c,
                t.a,
                t.b,
            )
            &&& q.distance_squared(r).le(p.distance_squared(q))
            &&& r.distance_squared(p).le(p.distance_squared(q))
            &&& (first.a, first.b, first.c) == (p, middle, r)
            &&& (second.a, second.b, second.c) == (middle, q, r)
        }),
{
    reveal(halves);
    reveal(Binary32::spec_le);
}

/// The middle of the edge that is cut is off by rounding alone.
pub proof fn law_cut_is_in_the_middle(t: Triangle)
    requires
        finite(t.a),
        finite(t.b),
        finite(t.c),
        finite(t.from_longest_edge().0.plus(t.from_longest_edge().1)),
    ensures
        ({
            let (p, q, r) = t.from_longest_edge();
            let middle = halves(t).0.b;
            &&& finite(middle)
            &&& slips_by_rounding(slip(p, q, middle).x, p.x.units() + q.x.units())
            &&& slips_by_rounding(slip(p, q, middle).y, p.y.units() + q.y.units())
            &&& slips_by_rounding(slip(p, q, middle).z, p.z.units() + q.z.units())
        }),
{
    reveal(halves);
    let (p, q, r) = t.from_longest_edge();
    law_middle_is_nearly_exact(p.x, q.x);
    law_middle_is_nearly_exact(p.y, q.y);
    law_middle_is_nearly_exact(p.z, q.z);
}

proof fn lemma_product_turned(a: int, b: int, c: int, d: int, e: int, f: int)
    ensures
        (b - a) * (f - d) - (e - d) * (c - a) == (c - b) * (d - e) - (f - e) * (a - b),
{
    assert((b - a) * (f - d) - (e - d) * (c - a) == (c - b) * (d - e) - (f - e) * (a - b))
        by (nonlinear_arith);
}

proof fn lemma_product_halved(p: int, q: int, r: int, m: int, u: int, v: int, w: int, n: int)
    ensures
        2 * ((m - p) * (w - u) - (n - u) * (r - p)) == (q - p) * (w - u) - (v - u) * (r - p) + ((2
            * m - (p + q)) * (w - u) - (2 * n - (u + v)) * (r - p)),
        2 * ((q - m) * (w - n) - (v - n) * (r - m)) == (q - p) * (w - u) - (v - u) * (r - p) - ((2
            * m - (p + q)) * (w - v) - (2 * n - (u + v)) * (r - q)),
{
    assert(2 * ((m - p) * (w - u) - (n - u) * (r - p)) == (q - p) * (w - u) - (v - u) * (r - p) + ((
    2 * m - (p + q)) * (w - u) - (2 * n - (u + v)) * (r - p))) by (nonlinear_arith);
    assert(2 * ((q - m) * (w - n) - (v - n) * (r - m)) == (q - p) * (w - u) - (v - u) * (r - p) - ((
    2 * m - (p + q)) * (w - v) - (2 * n - (u + v)) * (r - q))) by (nonlinear_arith);
}

/// Both halves of a triangle have half its area and its winding, up to what the
/// middle slips by: twice the normal of either is the normal of the whole but
/// for the slip times an edge. Where the middle is exact nothing is left out.
pub proof fn law_cut_halves_the_area(t: Triangle)
    ensures
        ({
            let (p, q, r) = t.from_longest_edge();
            let (first, second) = halves(t);
            let slip = slip(p, q, first.b);
            &&& exact_normal(first).doubled() == exact_normal(t).plus(
                slip.cross(Exact3::of(r).minus(Exact3::of(p))),
            )
            &&& exact_normal(second).doubled() == exact_normal(t).minus(
                slip.cross(Exact3::of(r).minus(Exact3::of(q))),
            )
        }),
{
    reveal(halves);
    let (p, q, r) = t.from_longest_edge();
    let m = Exact3::of(halves(t).0.b);
    let (a, b, c) = (Exact3::of(t.a), Exact3::of(t.b), Exact3::of(t.c));
    lemma_product_turned(a.y, b.y, c.y, a.z, b.z, c.z);
    lemma_product_turned(a.z, b.z, c.z, a.x, b.x, c.x);
    lemma_product_turned(a.x, b.x, c.x, a.y, b.y, c.y);
    lemma_product_turned(b.y, c.y, a.y, b.z, c.z, a.z);
    lemma_product_turned(b.z, c.z, a.z, b.x, c.x, a.x);
    lemma_product_turned(b.x, c.x, a.x, b.y, c.y, a.y);
    let (p, q, r) = (Exact3::of(p), Exact3::of(q), Exact3::of(r));
    lemma_product_halved(p.y, q.y, r.y, m.y, p.z, q.z, r.z, m.z);
    lemma_product_halved(p.z, q.z, r.z, m.z, p.x, q.x, r.x, m.x);
    lemma_product_halved(p.x, q.x, r.x, m.x, p.y, q.y, r.y, m.y);
}

/// Whether a place lies between the ends of an interval that is given by its
/// centre and its extent, but for what rounding `low` and `high` to these takes
/// away: half a unit, three parts in two to the twenty-fifth of the sum of the
/// ends and one of their difference.
pub open spec fn held_but_for_rounding(
    place: Binary32,
    centre: Binary32,
    extent: Binary32,
    low: Binary32,
    high: Binary32,
) -> bool {
    SIGNIFICAND_LIMIT * (2 * absolute(place.units() - centre.units())) <= SIGNIFICAND_LIMIT
        * extent.units() + SIGNIFICAND_LIMIT + 3 * absolute(low.units() + high.units())
        + absolute(high.units() - low.units())
}

proof fn lemma_interval_holds(place: Binary32, low: Binary32, high: Binary32)
    requires
        low.is_finite(),
        high.is_finite(),
        low.plus(high).is_finite(),
        high.minus(low).is_finite(),
        low.le(place),
        place.le(high),
    ensures
        held_but_for_rounding(
            place,
            low.plus(high).times(Binary32::of(HALF)),
            high.minus(low),
            low,
            high,
        ),
{
    reveal(Binary32::spec_le);
    law_middle_is_nearly_exact(low, high);
    law_difference_is_nearly_exact(high, low);
}

/// Whether the corners of some triangles, seen from their mean along the axes of
/// a basis, have coordinates that are numbers, and their bounds, the sum of
/// these and their difference are finite.
pub open spec fn measurable(triangles: Seq<Triangle>, basis: Mat3) -> bool {
    let mean = mean_corner(triangles);
    let low = lowest(triangles, basis.transpose(), mean);
    let high = highest(triangles, basis.transpose(), mean);
    &&& seen_as_numbers(triangles, basis.transpose(), mean)
    &&& finite(low)
    &&& finite(high)
    &&& finite(low.plus(high))
    &&& finite(high.minus(low))
}

/// Whether a box along the axes of a basis holds a corner of its triangles up
/// to rounding: seen along the axes, the corner lies no farther from the centre
/// than half the extent, but for what rounding takes away.
pub open spec fn holds(
    obb: BoxTransform,
    triangles: Seq<Triangle>,
    basis: Mat3,
    corner: Vec3,
) -> bool {
    let mean = mean_corner(triangles);
    let low = lowest(triangles, basis.transpose(), mean);
    let high = highest(triangles, basis.transpose(), mean);
    let centre = low.plus(high).scaled(Binary32::of(HALF));
    let seen = basis.transpose().apply(corner.minus(mean));
    &&& obb.position == mean.plus(basis.apply(centre))
    &&& obb.rotation == Quat::from_basis(basis)
    &&& held_but_for_rounding(seen.x, centre.x, obb.scale.x, low.x, high.x)
    &&& held_but_for_rounding(seen.y, centre.y, obb.scale.y, low.y, high.y)
    &&& held_but_for_rounding(seen.z, centre.z, obb.scale.z, low.z, high.z)
}

/// A box fitted in a basis holds every corner up to rounding.
pub proof fn law_box_holds_every_corner(
    triangles: Seq<Triangle>,
    basis: Mat3,
    i: int,
    corner: Vec3,
)
    requires
        0 <= i < triangles.len(),
        is_corner(triangles[i], corner),
        measurable(triangles, basis),
    ensures
        holds(bounding_box(triangles, basis), triangles, basis, corner),
{
    reveal(bounding_box);
    let mean = mean_corner(triangles);
    let low = lowest(triangles, basis.transpose(), mean);
    let high = highest(triangles, basis.transpose(), mean);
    let seen = basis.transpose().apply(corner.minus(mean));
    law_bounds_hold_every_corner(triangles, basis.transpose(), mean, i, corner);
    lemma_interval_holds(seen.x, low.x, high.x);
    lemma_interval_holds(seen.y, low.y, high.y);
    lemma_interval_holds(seen.z, low.z, high.z);
}

/// The axes along which the box of a cluster lies.
pub open spec fn best_basis(triangles: Seq<Triangle>) -> Mat3 {
    match face_basis(triangles) {
        Some(basis) if best_box(triangles) == bounding_box(triangles, basis) => basis,
        _ => principal_basis(
            moments_about(triangles, mean_corner(triangles)).mean(corner_count(triangles)),
        ),
    }
}

/// The box of a cluster is the one fitted along its axes, and holds every
/// corner of the triangles up to rounding.
pub proof fn law_cluster_box_holds_every_corner(triangles: Seq<Triangle>, i: int, corner: Vec3)
    requires
        0 <= i < triangles.len(),
        is_corner(triangles[i], corner),
        measurable(triangles, best_basis(triangles)),
    ensures
        fitted(triangles).triangles == triangles,
        fitted(triangles).obb == bounding_box(triangles, best_basis(triangles)),
        fitted(triangles).surface_error == surface_error(triangles, fitted(triangles).obb),
        holds(fitted(triangles).obb, triangles, best_basis(triangles), corner),
{
    reveal(best_box);
    reveal(principal_box);
    law_box_holds_every_corner(triangles, best_basis(triangles), i, corner);
}

} // verus!
