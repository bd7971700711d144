//! Mesh triangles: how they are halved, and how far a point is from one.
use crate::arithmetic::law_product_commutes;
use crate::binary32::{Binary32, HALF, ONE, THREE, ZERO};
use crate::vector::Vec3;
use vstd::prelude::*;

verus! {

/// The number of halvings after which a share of a triangle counts as nothing:
/// the share no longer has a binary64 value.
pub const VANISHED: u32 = 1075;

/// A triangle, and the share of an input triangle that it stands for: one half
/// to the power of `halvings`, or nothing once it has vanished.
#[derive(Clone, Copy, Debug, PartialEq, Eq, Structural)]
pub struct Triangle {
    pub a: Vec3,
    pub b: Vec3,
    pub c: Vec3,
    pub halvings: u32,
}

impl Triangle {
    /// The corners turned so that a longest edge comes first. Of equally long
    /// edges the first counts, unless a comparison with what is not a number
    /// passes it over.
    pub open spec fn from_longest_edge(self) -> (Vec3, Vec3, Vec3) {
        let ab = self.a.distance_squared(self.b);
        let bc = self.b.distance_squared(self.c);
        let ca = self.c.distance_squared(self.a);
        if bc.le(ab) && ca.le(ab) {
            (self.a, self.b, self.c)
        } else if ca.le(bc) {
            (self.b, self.c, self.a)
        } else {
            (self.c, self.a, self.b)
        }
    }

    /// The centre of gravity.
    #[verifier::allow_in_spec]
    pub fn centroid(self) -> Vec3
        returns
            self.a.plus(self.b).plus(self.c).over(Binary32::of(THREE)),
    {
        self.a.plus(self.b).plus(self.c).over(Binary32::of(THREE))
    }
}

/// The halvings of either half of a triangle that has been halved so often.
pub open spec fn halved_again(halvings: u32) -> u32 {
    if halvings >= VANISHED {
        VANISHED
    } else {
        (halvings + 1) as u32
    }
}

/// The two triangles that a cut through the middle of a longest edge leaves.
#[verifier::opaque]
pub open spec fn halves(triangle: Triangle) -> (Triangle, Triangle) {
    let (p, q, r) = triangle.from_longest_edge();
    let midpoint = p.plus(q).scaled(Binary32::of(HALF));
    let halvings = halved_again(triangle.halvings);
    (
        Triangle { a: p, b: midpoint, c: r, halvings },
        Triangle { a: midpoint, b: q, c: r, halvings },
    )
}

/// Cuts a triangle in two across a longest edge.
pub fn split_triangle(triangle: Triangle) -> (result: (Triangle, Triangle))
    ensures
        result == halves(triangle),
{
    proof {
        reveal(halves);
    }
    let (a, b, c) = (triangle.a, triangle.b, triangle.c);
    let ab = a.distance_squared(b);
    let bc = b.distance_squared(c);
    let ca = c.distance_squared(a);
    let halvings: u32 = if triangle.halvings >= VANISHED {
        VANISHED
    } else {
        triangle.halvings + 1
    };
    if bc.le(ab) && ca.le(ab) {
        let midpoint = a.plus(b).scaled(Binary32::of(HALF));
        (
            Triangle { a, b: midpoint, c, halvings },
            Triangle { a: midpoint, b, c, halvings },
        )
    } else if ca.le(bc) {
        let midpoint = b.plus(c).scaled(Binary32::of(HALF));
        (
            Triangle { a: b, b: midpoint, c: a, halvings },
            Triangle { a: midpoint, b: c, c: a, halvings },
        )
    } else {
        let midpoint = c.plus(a).scaled(Binary32::of(HALF));
        (
            Triangle { a: c, b: midpoint, c: b, halvings },
            Triangle { a: midpoint, b: a, c: b, halvings },
        )
    }
}

/// A vector perpendicular to the triangle, as long as twice its area.
#[verifier::allow_in_spec]
pub fn triangle_normal(triangle: Triangle) -> Vec3
    returns
        triangle.b.minus(triangle.a).cross(triangle.c.minus(triangle.a)),
{
    triangle.b.minus(triangle.a).cross(triangle.c.minus(triangle.a))
}

/// The part of a triangle in which the point nearest to a given one lies.
pub enum Feature {
    CornerA,
    CornerB,
    CornerC,
    EdgeAb,
    EdgeAc,
    EdgeBc,
    Inside,
}

/// The products of the edges from `a` with the ways from the three corners to
/// a point, from which its nearest feature is told.
pub struct Projections {
    pub d1: Binary32,
    pub d2: Binary32,
    pub d3: Binary32,
    pub d4: Binary32,
    pub d5: Binary32,
    pub d6: Binary32,
}

impl Projections {
    pub open spec fn of(point: Vec3, t: Triangle) -> Projections {
        let ab = t.b.minus(t.a);
        let ac = t.c.minus(t.a);
        Projections {
            d1: ab.dot(point.minus(t.a)),
            d2: ac.dot(point.minus(t.a)),
            d3: ab.dot(point.minus(t.b)),
            d4: ac.dot(point.minus(t.b)),
            d5: ab.dot(point.minus(t.c)),
            d6: ac.dot(point.minus(t.c)),
        }
    }

    /// The weight of corner `c`, up to a common factor.
    pub open spec fn vc(self) -> Binary32 {
        self.d1.times(self.d4).minus(self.d3.times(self.d2))
    }

    /// The weight of corner `b`, up to a common factor.
    pub open spec fn vb(self) -> Binary32 {
        self.d5.times(self.d2).minus(self.d1.times(self.d6))
    }

    /// The weight of corner `a`, up to a common factor.
    pub open spec fn va(self) -> Binary32 {
        self.d3.times(self.d6).minus(self.d5.times(self.d4))
    }

    /// The feature nearest to the point: the first one whose conditions hold.
    pub open spec fn feature(self) -> Feature {
        let zero = Binary32::of(ZERO);
        if self.d1.le(zero) && self.d2.le(zero) {
            Feature::CornerA
        } else if zero.le(self.d3) && self.d4.le(self.d3) {
            Feature::CornerB
        } else if self.vc().le(zero) && zero.le(self.d1) && self.d3.le(zero) {
            Feature::EdgeAb
        } else if zero.le(self.d6) && self.d5.le(self.d6) {
            Feature::CornerC
        } else if self.vb().le(zero) && zero.le(self.d2) && self.d6.le(zero) {
            Feature::EdgeAc
        } else if self.va().le(zero) && zero.le(self.d4.minus(self.d3)) && zero.le(
            self.d5.minus(self.d6),
        ) {
            Feature::EdgeBc
        } else {
            Feature::Inside
        }
    }
}

/// The way from the nearest point of the triangle to the given point, or its
/// reverse.
pub open spec fn nearest_offset(point: Vec3, t: Triangle) -> Vec3 {
    let p = Projections::of(point, t);
    let ab = t.b.minus(t.a);
    let ac = t.c.minus(t.a);
    match p.feature() {
        Feature::CornerA => point.minus(t.a),
        Feature::CornerB => point.minus(t.b),
        Feature::CornerC => point.minus(t.c),
        Feature::EdgeAb => point.minus(t.a).minus(ab.scaled(p.d1.over(p.d1.minus(p.d3)))),
        Feature::EdgeAc => point.minus(t.a).minus(ac.scaled(p.d2.over(p.d2.minus(p.d6)))),
        Feature::EdgeBc => {
            let towards_c = p.d4.minus(p.d3);
            let towards_b = p.d5.minus(p.d6);
            point.minus(t.b).minus(
                t.c.minus(t.b).scaled(towards_c.over(towards_c.plus(towards_b))),
            )
        },
        Feature::Inside => {
            let share = Binary32::of(ONE).over(p.va().plus(p.vb()).plus(p.vc()));
            t.a.plus(ab.scaled(p.vb().times(share))).plus(
                ac.scaled(p.vc().times(share)),
            ).minus(point)
        },
    }
}

/// The square of the distance between a point and the nearest point of a
/// triangle.
pub fn point_triangle_distance_squared(point: Vec3, triangle: Triangle) -> (result: Binary32)
    ensures
        result == nearest_offset(point, triangle).length_squared(),
{
    let (a, b, c) = (triangle.a, triangle.b, triangle.c);
    let zero = Binary32::of(ZERO);
    let ab = b.minus(a);
    let ac = c.minus(a);
    let ap = point.minus(a);
    let d1 = ab.dot(ap);
    let d2 = ac.dot(ap);
    if d1.le(zero) && d2.le(zero) {
        return ap.length_squared();
    }
    let bp = point.minus(b);
    let d3 = ab.dot(bp);
    let d4 = ac.dot(bp);
    if zero.le(d3) && d4.le(d3) {
        return bp.length_squared();
    }
    let vc = d1.times(d4).minus(d3.times(d2));
    if vc.le(zero) && zero.le(d1) && d3.le(zero) {
        let v = d1.over(d1.minus(d3));
        return ap.minus(ab.scaled(v)).length_squared();
    }
    let cp = point.minus(c);
    let d5 = ab.dot(cp);
    let d6 = ac.dot(cp);
    if zero.le(d6) && d5.le(d6) {
        return cp.length_squared();
    }
    let vb = d5.times(d2).minus(d1.times(d6));
    if vb.le(zero) && zero.le(d2) && d6.le(zero) {
        let w = d2.over(d2.minus(d6));
        return ap.minus(ac.scaled(w)).length_squared();
    }
    let va = d3.times(d6).minus(d5.times(d4));
    let towards_c = d4.minus(d3);
    let towards_b = d5.minus(d6);
    if va.le(zero) && zero.le(towards_c) && zero.le(towards_b) {
        let bc = c.minus(b);
        let w = towards_c.over(towards_c.plus(towards_b));
        return bp.minus(bc.scaled(w)).length_squared();
    }
    let denominator = Binary32::of(ONE).over(va.plus(vb).plus(vc));
    let v = vb.times(denominator);
    let w = vc.times(denominator);
    a.plus(ab.scaled(v)).plus(ac.scaled(w)).minus(point).length_squared()
}

/// Whether the conditions of corner `b` or of its edge to `a` hold.
pub open spec fn nearest_beside_b(p: Projections) -> bool {
    let zero = Binary32::of(ZERO);
    (zero.le(p.d3) && p.d4.le(p.d3)) || (p.vc().le(zero) && zero.le(p.d1) && p.d3.le(zero))
}

/// Whether the conditions of corner `c` or of its edge to `a` hold.
pub open spec fn nearest_beside_c(p: Projections) -> bool {
    let zero = Binary32::of(ZERO);
    (zero.le(p.d6) && p.d5.le(p.d6)) || (p.vb().le(zero) && zero.le(p.d2) && p.d6.le(zero))
}

/// The triangle with its second and third corner swapped.
pub open spec fn swapped(t: Triangle) -> Triangle {
    Triangle { b: t.c, c: t.b, ..t }
}

/// Swapping two corners changes no bit of the distance to a corner or to an
/// edge of the first corner, unless rounding makes a point look nearest beside
/// both of the others at once.
pub proof fn law_swapped_corners_leave_the_distance(point: Vec3, t: Triangle)
    requires
        ({
            let p = Projections::of(point, t);
            p.feature() is CornerA || nearest_beside_b(p) != nearest_beside_c(p)
        }),
    ensures
        nearest_offset(point, swapped(t)) == nearest_offset(point, t),
        nearest_offset(point, swapped(t)).length_squared() == nearest_offset(
            point,
            t,
        ).length_squared(),
{
    let p = Projections::of(point, t);
    let other = Projections::of(point, swapped(t));
    law_product_commutes(p.d5, p.d2);
    law_product_commutes(p.d1, p.d6);
    law_product_commutes(p.d1, p.d4);
    law_product_commutes(p.d3, p.d2);
    assert(other.vc() == p.vb());
    assert(other.vb() == p.vc());
}

} // verus!
