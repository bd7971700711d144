//! The point of a triangle that is nearest to a given one, in exact
//! arithmetic.
//!
//! The feature of a triangle to which a point is nearest is told here from
//! exact products by the conditions that are tried on rounded ones, in the same
//! order.
use crate::exact::Exact3;
use crate::triangle::Feature;
use vstd::prelude::*;

verus! {

proof fn lemma_sum_times(a: int, b: int, c: int)
    ensures
        (a + b) * c == a * c + b * c,
        (a - b) * c == a * c - b * c,
        a * b == b * a,
{
    assert((a + b) * c == a * c + b * c) by (nonlinear_arith);
    assert((a - b) * c == a * c - b * c) by (nonlinear_arith);
    assert(a * b == b * a) by (nonlinear_arith);
}

proof fn lemma_triple(a: int, b: int, c: int)
    ensures
        (a * b) * c == a * (b * c),
        (a * b) * c == (b * c) * a,
        (a * b) * c == (a * c) * b,
        (a * b) * c == (b * a) * c,
{
    assert((a * b) * c == a * (b * c)) by (nonlinear_arith);
    assert((a * b) * c == (b * c) * a) by (nonlinear_arith);
    assert((a * b) * c == (a * c) * b) by (nonlinear_arith);
    assert((a * b) * c == (b * a) * c) by (nonlinear_arith);
}

proof fn lemma_square(a: int)
    ensures
        a * a >= 0,
        a * a == 0 ==> a == 0,
{
    assert(a * a >= 0) by (nonlinear_arith);
    assert(a * a == 0 ==> a == 0) by (nonlinear_arith);
}

/// The product of a sum with a vector.
proof fn lemma_dot_distributes(a: Exact3, b: Exact3, c: Exact3)
    ensures
        a.plus(b).dot(c) == a.dot(c) + b.dot(c),
        a.minus(b).dot(c) == a.dot(c) - b.dot(c),
        a.dot(b) == b.dot(a),
{
    lemma_sum_times(a.x, b.x, c.x);
    lemma_sum_times(a.y, b.y, c.y);
    lemma_sum_times(a.z, b.z, c.z);
}

/// The product of a multiple with a vector.
proof fn lemma_dot_scales(a: Exact3, factor: int, b: Exact3)
    ensures
        a.scaled(factor).dot(b) == factor * a.dot(b),
{
    lemma_triple(a.x, factor, b.x);
    lemma_triple(a.y, factor, b.y);
    lemma_triple(a.z, factor, b.z);
    lemma_sum_times(a.x * b.x, a.y * b.y, factor);
    lemma_sum_times(a.x * b.x + a.y * b.y, a.z * b.z, factor);
    lemma_sum_times(factor, a.x * b.x + a.y * b.y + a.z * b.z, factor);
}

/// No length is negative, and only that of the origin is zero.
proof fn lemma_length(a: Exact3)
    ensures
        a.length_squared() >= 0,
        a.length_squared() == 0 ==> a.x == 0 && a.y == 0 && a.z == 0,
{
    lemma_square(a.x);
    lemma_square(a.y);
    lemma_square(a.z);
}

/// The products of the edges from `a` with the ways from the corners to a
/// point.
pub struct ExactProjections {
    pub d1: int,
    pub d2: int,
    pub d3: int,
    pub d4: int,
    pub d5: int,
    pub d6: int,
}

impl ExactProjections {
    pub open spec fn of(point: Exact3, a: Exact3, b: Exact3, c: Exact3) -> ExactProjections {
        let ab = b.minus(a);
        let ac = c.minus(a);
        ExactProjections {
            d1: ab.dot(point.minus(a)),
            d2: ac.dot(point.minus(a)),
            d3: ab.dot(point.minus(b)),
            d4: ac.dot(point.minus(b)),
            d5: ab.dot(point.minus(c)),
            d6: ac.dot(point.minus(c)),
        }
    }

    /// The weight of corner `c`, up to a common factor.
    pub open spec fn vc(self) -> int {
        self.d1 * self.d4 - self.d3 * self.d2
    }

    /// The weight of corner `b`, up to a common factor.
    pub open spec fn vb(self) -> int {
        self.d5 * self.d2 - self.d1 * self.d6
    }

    /// The weight of corner `a`, up to a common factor.
    pub open spec fn va(self) -> int {
        self.d3 * self.d6 - self.d5 * self.d4
    }

    /// The feature nearest to the point: the first one whose conditions hold.
    pub open spec fn feature(self) -> Feature {
        if self.d1 <= 0 && self.d2 <= 0 {
            Feature::CornerA
        } else if 0 <= self.d3 && self.d4 <= self.d3 {
            Feature::CornerB
        } else if self.vc() <= 0 && 0 <= self.d1 && self.d3 <= 0 {
            Feature::EdgeAb
        } else if 0 <= self.d6 && self.d5 <= self.d6 {
            Feature::CornerC
        } else if self.vb() <= 0 && 0 <= self.d2 && self.d6 <= 0 {
            Feature::EdgeAc
        } else if self.va() <= 0 && 0 <= self.d4 - self.d3 && 0 <= self.d5 - self.d6 {
            Feature::EdgeBc
        } else {
            Feature::Inside
        }
    }

    /// The weights of the corners in the foot.
    pub open spec fn weights(self) -> (int, int, int) {
        match self.feature() {
            Feature::CornerA => (1, 0, 0),
            Feature::CornerB => (0, 1, 0),
            Feature::CornerC => (0, 0, 1),
            Feature::EdgeAb => (-self.d3, self.d1, 0),
            Feature::EdgeAc => (-self.d6, 0, self.d2),
            Feature::EdgeBc => (0, self.d5 - self.d6, self.d4 - self.d3),
            Feature::Inside => (self.va(), self.vb(), self.vc()),
        }
    }

    /// What the weights are divided by.
    pub open spec fn divisor(self) -> int {
        let (u, v, w) = self.weights();
        u + v + w
    }
}

/// The way to a point from the one in which the corners have the given weights,
/// times the sum of the weights.
pub open spec fn way_from(
    point: Exact3,
    a: Exact3,
    b: Exact3,
    c: Exact3,
    u: int,
    v: int,
    w: int,
) -> Exact3 {
    point.scaled(u + v + w).minus(a.scaled(u).plus(b.scaled(v)).plus(c.scaled(w)))
}

/// Whether weights are those of a point of a triangle.
pub open spec fn within_triangle(u: int, v: int, w: int) -> bool {
    u >= 0 && v >= 0 && w >= 0 && u + v + w > 0
}

/// Whether the foot of a point is defined: the weights do not all vanish.
pub open spec fn has_foot(point: Exact3, a: Exact3, b: Exact3, c: Exact3) -> bool {
    ExactProjections::of(point, a, b, c).divisor() > 0
}

/// The way to a point from its foot, times the divisor of the weights.
pub open spec fn way_from_foot(point: Exact3, a: Exact3, b: Exact3, c: Exact3) -> Exact3 {
    let (u, v, w) = ExactProjections::of(point, a, b, c).weights();
    way_from(point, a, b, c, u, v, w)
}

/// The products that are left over of those of the two edges.
pub open spec fn hang_together(p: ExactProjections, g: int, h: int, k: int) -> bool {
    &&& p.d3 == p.d1 - g
    &&& p.d4 == p.d2 - h
    &&& p.d5 == p.d1 - h
    &&& p.d6 == p.d2 - k
    &&& p.vc() == g * p.d2 - h * p.d1
    &&& p.vb() == k * p.d1 - h * p.d2
    &&& p.va() == (g * k - h * h) - (k * p.d1 - h * p.d2) - (g * p.d2 - h * p.d1)
    &&& g >= 0
    &&& k >= 0
}

proof fn lemma_weights(d1: int, d2: int, g: int, h: int, k: int)
    ensures
        d1 * (d2 - h) - (d1 - g) * d2 == g * d2 - h * d1,
        (d1 - h) * d2 - d1 * (d2 - k) == k * d1 - h * d2,
        (d1 - g) * (d2 - k) - (d1 - h) * (d2 - h) == (g * k - h * h) - (k * d1 - h * d2) - (g * d2
            - h * d1),
{
    lemma_sum_times(d2, h, d1);
    lemma_sum_times(d1, g, d2);
    lemma_sum_times(d1, h, d2);
    lemma_sum_times(d2, k, d1);
    lemma_sum_times(d1, g, d2 - k);
    lemma_sum_times(d1, h, d2 - h);
    lemma_sum_times(d2, k, g);
    lemma_sum_times(d2, h, h);
    lemma_sum_times(d1, d2 - h, d1);
    lemma_sum_times(d1, d2 - k, d1);
    lemma_sum_times(g, d2 - k, g);
    lemma_sum_times(h, d2 - h, h);
    lemma_sum_times(d2, d1, d1);
    lemma_sum_times(k, d1, d1);
    lemma_sum_times(h, d1, d1);
    lemma_sum_times(k, g, g);
    lemma_sum_times(d2, g, g);
    lemma_sum_times(d2, h, h);
}

/// How the products hang together.
pub(crate) proof fn lemma_projections(point: Exact3, a: Exact3, b: Exact3, c: Exact3)
    ensures
        ({
            let ab = b.minus(a);
            let ac = c.minus(a);
            hang_together(
                ExactProjections::of(point, a, b, c),
                ab.dot(ab),
                ab.dot(ac),
                ac.dot(ac),
            )
        }),
{
    let ab = b.minus(a);
    let ac = c.minus(a);
    let ap = point.minus(a);
    let p = ExactProjections::of(point, a, b, c);
    assert(point.minus(b) == ap.minus(ab));
    assert(point.minus(c) == ap.minus(ac));
    lemma_dot_distributes(ap, ab, ab);
    lemma_dot_distributes(ap, ab, ac);
    lemma_dot_distributes(ap, ac, ab);
    lemma_dot_distributes(ap, ac, ac);
    lemma_dot_distributes(ap.minus(ab), ab, ab);
    lemma_dot_distributes(ap.minus(ab), ac, ac);
    lemma_dot_distributes(ap.minus(ac), ab, ab);
    lemma_dot_distributes(ap.minus(ac), ac, ac);
    lemma_dot_distributes(ab, ac, ac);
    lemma_length(ab);
    lemma_length(ac);
    lemma_weights(p.d1, p.d2, ab.dot(ab), ab.dot(ac), ac.dot(ac));
}

proof fn lemma_sign(n: int, e: int)
    requires
        n > 0,
    ensures
        n * e <= 0 ==> e <= 0,
        n * e >= 0 ==> e >= 0,
        n * e > 0 ==> e > 0,
        n * e < 0 ==> e < 0,
{
    assert(n * e <= 0 ==> e <= 0) by (nonlinear_arith)
        requires
            n > 0,
    ;
    assert(n * e >= 0 ==> e >= 0) by (nonlinear_arith)
        requires
            n > 0,
    ;
    assert(n * e > 0 ==> e > 0) by (nonlinear_arith)
        requires
            n > 0,
    ;
    assert(n * e < 0 ==> e < 0) by (nonlinear_arith)
        requires
            n > 0,
    ;
}

proof fn lemma_signs(a: int, b: int)
    ensures
        a >= 0 && b >= 0 ==> a * b >= 0,
        a >= 0 && b <= 0 ==> a * b <= 0,
        a <= 0 && b <= 0 ==> a * b >= 0,
        a > 0 && b > 0 ==> a * b > 0,
        a > 0 && b < 0 ==> a * b < 0,
        a < 0 && b < 0 ==> a * b > 0,
{
    assert(a >= 0 && b >= 0 ==> a * b >= 0) by (nonlinear_arith);
    assert(a >= 0 && b <= 0 ==> a * b <= 0) by (nonlinear_arith);
    assert(a <= 0 && b <= 0 ==> a * b >= 0) by (nonlinear_arith);
    assert(a > 0 && b > 0 ==> a * b > 0) by (nonlinear_arith);
    assert(a > 0 && b < 0 ==> a * b < 0) by (nonlinear_arith);
    assert(a < 0 && b < 0 ==> a * b > 0) by (nonlinear_arith);
}

/// Beyond a corner on the far side of one edge a point is on the far side of
/// the other edge too, and not beyond the end of that.
proof fn lemma_beyond_corner(g: int, h: int, k: int, d1: int, d2: int)
    requires
        g > 0,
        k > 0,
        g * k - h * h > 0,
        d1 < 0,
        d2 > 0,
        g * d2 - h * d1 <= 0,
    ensures
        k * d1 - h * d2 < 0,
        !(d2 - k > 0 && d1 - h > d2 - k),
{
    lemma_signs(g, d2);
    lemma_signs(h, d1);
    assert(h < 0) by {
        lemma_signs(h, -d1);
        lemma_sum_times(0, d1, h);
        lemma_sum_times(h, d1, h);
        lemma_sum_times(h, -d1, h);
    }
    // Times g, the other weight is the determinant times d1 at most.
    let rest = h * d1 - g * d2;
    lemma_signs(-h, rest);
    lemma_sum_times(h * d1, g * d2, -h);
    lemma_sum_times(-h, rest, -h);
    lemma_signs(g * k - h * h, d1);
    lemma_sum_times(g * k, h * h, d1);
    lemma_sum_times(k * d1, h * d2, g);
    lemma_sum_times(g, k * d1 - h * d2, g);
    lemma_triple(k, d1, g);
    lemma_triple(g, k, d1);
    lemma_triple(h, h, d1);
    lemma_triple(h, d1, -h);
    lemma_triple(g, d2, -h);
    lemma_triple(h, d2, g);
    lemma_negative(h * d1, h);
    lemma_negative(g * d2, h);
    lemma_triple(h, d1, h);
    lemma_triple(g, d2, h);
    lemma_sign(g, k * d1 - h * d2);
    if d2 - k > 0 && d1 - h > d2 - k {
        lemma_signs(-h, d1 - h);
        lemma_negative(d1 - h, h);
        lemma_sum_times(d1, h, h);
        lemma_sum_times(-h, d1 - h, h);
        lemma_sum_times(d1, h, h);
        lemma_signs(g, d2 - k);
        lemma_sum_times(d2, k, g);
        lemma_sum_times(g, d2 - k, g);
        lemma_sum_times(d2, g, g);
        lemma_sum_times(k, g, g);
        lemma_sum_times(h, d1, g);
    }
}

proof fn lemma_negative(a: int, b: int)
    ensures
        a * (-b) == -(a * b),
        (-b) * a == -(a * b),
{
    assert(a * (-b) == -(a * b)) by (nonlinear_arith);
    assert((-b) * a == -(a * b)) by (nonlinear_arith);
}

/// The same products, seen from the other two corners.
proof fn lemma_other_corners(d1: int, d2: int, g: int, h: int, k: int)
    ensures
        ({
            let far = g - 2 * h + k;
            let all = (g * k - h * h) - (k * d1 - h * d2) - (g * d2 - h * d1);
            let (d3, d4, d5, d6) = (d1 - g, d2 - h, d1 - h, d2 - k);
            &&& g * far - (g - h) * (g - h) == g * k - h * h
            &&& k * far - (k - h) * (k - h) == g * k - h * h
            &&& g * (d4 - d3) - (g - h) * (-d3) == g * d2 - h * d1
            &&& k * (d5 - d6) - (k - h) * (-d6) == k * d1 - h * d2
            &&& far * (-d3) - (g - h) * (d4 - d3) == all
            &&& far * (-d6) - (k - h) * (d5 - d6) == all
        }),
{
    assert(g * (g - 2 * h + k) - (g - h) * (g - h) == g * k - h * h) by (nonlinear_arith);
    assert(k * (g - 2 * h + k) - (k - h) * (k - h) == g * k - h * h) by (nonlinear_arith);
    assert(g * ((d2 - h) - (d1 - g)) - (g - h) * (-(d1 - g)) == g * d2 - h * d1)
        by (nonlinear_arith);
    assert(k * ((d1 - h) - (d2 - k)) - (k - h) * (-(d2 - k)) == k * d1 - h * d2)
        by (nonlinear_arith);
    assert((g - 2 * h + k) * (-(d1 - g)) - (g - h) * ((d2 - h) - (d1 - g)) == (g * k - h * h)
        - (k * d1 - h * d2) - (g * d2 - h * d1)) by (nonlinear_arith);
    assert((g - 2 * h + k) * (-(d2 - k)) - (k - h) * ((d1 - h) - (d2 - k)) == (g * k - h * h)
        - (k * d1 - h * d2) - (g * d2 - h * d1)) by (nonlinear_arith);
}

/// The edges of a triangle with an area have lengths.
proof fn lemma_edges_have_lengths(g: int, h: int, k: int)
    requires
        g >= 0,
        k >= 0,
        g * k - h * h > 0,
    ensures
        g > 0,
        k > 0,
        g - 2 * h + k > 0,
{
    let far = g - 2 * h + k;
    assert(h * h >= 0) by (nonlinear_arith);
    assert((g - h) * (g - h) >= 0) by (nonlinear_arith);
    assert(0 * k == 0 && g * 0 == 0);
    lemma_other_corners(0, 0, g, h, k);
    lemma_sign(g, far);
}

/// Where no corner and no edge is nearest, no weight is negative.
proof fn lemma_inside_weights(p: ExactProjections, g: int, h: int, k: int)
    requires
        hang_together(p, g, h, k),
        g * k - h * h > 0,
        p.feature() is Inside,
    ensures
        p.va() >= 0,
        p.vb() >= 0,
        p.vc() >= 0,
{
    let (d1, d2, d3, d4, d5, d6) = (p.d1, p.d2, p.d3, p.d4, p.d5, p.d6);
    let far = g - 2 * h + k;
    lemma_edges_have_lengths(g, h, k);
    lemma_other_corners(d1, d2, g, h, k);
    lemma_sum_times(far, g, g);
    lemma_sum_times(far, k, k);
    lemma_sum_times(k, g, g);
    if p.vc() < 0 {
        if d1 < 0 {
            lemma_beyond_corner(g, h, k, d1, d2);
        } else {
            lemma_beyond_corner(g, g - h, far, -d3, d4 - d3);
        }
    }
    if p.vb() < 0 {
        if d2 < 0 {
            lemma_beyond_corner(k, h, g, d2, d1);
        } else {
            lemma_beyond_corner(k, k - h, far, -d6, d5 - d6);
        }
    }
    if p.va() < 0 {
        if d4 - d3 < 0 {
            lemma_beyond_corner(far, g - h, g, d4 - d3, -d3);
        } else {
            lemma_beyond_corner(far, k - h, k, d5 - d6, -d6);
        }
    }
}

/// The products with the edges of what is left beside the opposite edge.
proof fn lemma_opposite_edge(d1: int, d2: int, g: int, h: int, k: int)
    ensures
        ({
            let (d3, d4, d5, d6) = (d1 - g, d2 - h, d1 - h, d2 - k);
            let (p, q) = (d5 - d6, d4 - d3);
            let n = q + p;
            &&& n * d1 - p * g - q * h == n * d2 - p * h - q * k
            &&& n * d1 - p * g - q * h == d5 * d4 - d3 * d6
        }),
{
    let (d3, d4, d5, d6) = (d1 - g, d2 - h, d1 - h, d2 - k);
    let (p, q) = (d5 - d6, d4 - d3);
    let n = q + p;
    let (d, a, b) = (d1 - d2, g - h, h - k);
    assert((a - b) * d == (d - b) * a + (a - d) * b) by (nonlinear_arith);
    lemma_sum_times(d1, d2, n);
    lemma_sum_times(g, h, p);
    lemma_sum_times(h, k, q);
    lemma_sum_times(n, d, n);
    lemma_sum_times(n, d1, n);
    lemma_sum_times(n, d2, n);
    lemma_sum_times(p, a, p);
    lemma_sum_times(p, g, p);
    lemma_sum_times(p, h, p);
    lemma_sum_times(q, b, q);
    lemma_sum_times(q, h, q);
    lemma_sum_times(q, k, q);
    assert(p == d - b && q == a - d && n == a - b);
    assert(n * d == p * a + q * b);
    // And d1 is d3 and g, so that only products of the others are left.
    lemma_sum_times(d3, g, n);
    lemma_sum_times(q, p, d3);
    lemma_sum_times(q, p, g);
    lemma_sum_times(n, d3, n);
    lemma_sum_times(n, g, n);
    lemma_sum_times(g, h, q);
    lemma_sum_times(d5, d3, q);
    lemma_sum_times(q, g, q);
    lemma_sum_times(d5, d6, d3);
    lemma_sum_times(d4, d3, d5);
    lemma_sum_times(q, d5, q);
    lemma_sum_times(q, d3, q);
    lemma_sum_times(p, d3, p);
    lemma_sum_times(d3, d5, d3);
    lemma_sum_times(d3, d6, d3);
    lemma_sum_times(d4, d5, d4);
    assert(n * d1 == n * d3 + n * g);
    assert(n * d3 == q * d3 + p * d3);
    assert(n * g == q * g + p * g);
    assert(q * (g - h) == q * g - q * h);
}

proof fn lemma_inside_foot(d1: int, d2: int, g: int, h: int, k: int)
    ensures
        (g * k - h * h) * d1 - (k * d1 - h * d2) * g - (g * d2 - h * d1) * h == 0,
        (g * k - h * h) * d2 - (k * d1 - h * d2) * h - (g * d2 - h * d1) * k == 0,
{
    lemma_sum_times(g * k, h * h, d1);
    lemma_sum_times(g * k, h * h, d2);
    lemma_sum_times(k * d1, h * d2, g);
    lemma_sum_times(k * d1, h * d2, h);
    lemma_sum_times(g * d2, h * d1, h);
    lemma_sum_times(g * d2, h * d1, k);
    lemma_triple(g, k, d1);
    lemma_triple(k, d1, g);
    lemma_triple(h, h, d1);
    lemma_triple(h, d1, h);
    lemma_triple(h, d2, g);
    lemma_triple(g, d2, h);
    lemma_triple(g, h, d2);
    lemma_triple(h, g, d2);
    lemma_triple(g, k, d2);
    lemma_triple(g, d2, k);
    lemma_triple(h, h, d2);
    lemma_triple(h, d2, h);
    lemma_triple(k, d1, h);
    lemma_triple(h, d1, k);
    lemma_triple(k, h, d1);
    lemma_triple(h, k, d1);
    lemma_sum_times(d1, k, g);
    lemma_sum_times(h, k, g);
    lemma_sum_times(h, g, g);
}

/// What is left between a point and its foot points away from every other
/// point of the triangle.
proof fn lemma_foot_turns_away(p: ExactProjections, g: int, h: int, k: int, m: int, s: int, r: int)
    requires
        hang_together(p, g, h, k),
        p.divisor() > 0,
        s >= 0,
        r >= 0,
        s + r <= m,
    ensures
        ({
            let (u, v, w) = p.weights();
            let n = p.divisor();
            &&& within_triangle(u, v, w)
            &&& (m * v - n * s) * (n * p.d1 - v * g - w * h) + (m * w - n * r) * (n * p.d2 - v * h
                - w * k) >= 0
        }),
{
    let (d1, d2, d3, d4, d5, d6) = (p.d1, p.d2, p.d3, p.d4, p.d5, p.d6);
    let (u, v, w) = p.weights();
    let n = p.divisor();
    let e1 = n * d1 - v * g - w * h;
    let e2 = n * d2 - v * h - w * k;
    assert(0 * g == 0 && 0 * h == 0 && 0 * k == 0 && m * 0 == 0);
    assert(1 * g == g && 1 * h == h && 1 * k == k && 1 * d1 == d1 && 1 * d2 == d2);
    assert(1 * s == s && 1 * r == r && m * 1 == m);
    match p.feature() {
        Feature::CornerA => {
            lemma_signs(-s, d1);
            lemma_signs(-r, d2);
        },
        Feature::CornerB => {
            // (m - s) d3 - r d4 is (m - s - r) d3 + r (d3 - d4).
            lemma_signs(m - s - r, d3);
            lemma_signs(r, d3 - d4);
            lemma_sum_times(m - s, r, d3);
            lemma_sum_times(d3, d4, r);
            lemma_sum_times(r, d3 - d4, r);
            lemma_sum_times(r, d3, r);
            lemma_sum_times(r, d4, r);
            lemma_negative(d4, r);
        },
        Feature::CornerC => {
            lemma_signs(m - s - r, d6);
            lemma_signs(s, d6 - d5);
            lemma_sum_times(m - r, s, d6);
            lemma_sum_times(d6, d5, s);
            lemma_sum_times(s, d6 - d5, s);
            lemma_sum_times(s, d6, s);
            lemma_sum_times(s, d5, s);
            lemma_negative(d5, s);
        },
        Feature::EdgeAb => {
            assert(n == g);
            lemma_sum_times(d1, g, g);
            lemma_sum_times(d1, h, h);
            assert(e1 == 0 && e2 == p.vc());
            lemma_signs(n, r);
            lemma_signs(n * r, e2);
            lemma_negative(e2, n * r);
            assert((m * v - n * s) * 0 == 0);
        },
        Feature::EdgeAc => {
            assert(n == k);
            lemma_sum_times(d2, k, g);
            lemma_sum_times(d2, h, h);
            assert(e2 == 0 && e1 == p.vb());
            lemma_signs(n, s);
            lemma_signs(n * s, e1);
            lemma_negative(e1, n * s);
            assert((m * w - n * r) * 0 == 0);
        },
        Feature::EdgeBc => {
            lemma_opposite_edge(d1, d2, g, h, k);
            assert(e1 == e2 && e1 == -p.va());
            let spare = (m * v - n * s) + (m * w - n * r);
            lemma_sum_times(v, w, m);
            lemma_sum_times(s, r, n);
            lemma_sum_times(m, v, m);
            lemma_sum_times(m, w, m);
            lemma_sum_times(n, s, n);
            lemma_sum_times(n, r, n);
            lemma_sum_times(m, s + r, n);
            lemma_signs(m - (s + r), n);
            assert(v + w == n);
            lemma_sum_times(m, n, m);
            assert(spare == (m - (s + r)) * n);
            lemma_signs(spare, e1);
            lemma_sum_times(m * v - n * s, m * w - n * r, e1);
        },
        Feature::Inside => {
            lemma_inside_weights(p, g, h, k);
            lemma_inside_foot(d1, d2, g, h, k);
            assert(n == g * k - h * h);
            assert(e1 == 0 && e2 == 0);
            assert((m * v - n * s) * 0 == 0 && (m * w - n * r) * 0 == 0);
        },
    }
}

/// The foot is a point of the triangle, and none is nearer: of all points in
/// which the corners have weights, the one that the nearest feature names has
/// the least distance. Both squared distances are multiplied out by the sums of
/// the weights.
pub proof fn law_foot_is_nearest(
    point: Exact3,
    a: Exact3,
    b: Exact3,
    c: Exact3,
    u: int,
    v: int,
    w: int,
)
    requires
        has_foot(point, a, b, c),
        within_triangle(u, v, w),
    ensures
        ({
            let p = ExactProjections::of(point, a, b, c);
            let (n, m) = (p.divisor(), u + v + w);
            &&& within_triangle(p.weights().0, p.weights().1, p.weights().2)
            &&& m * m * way_from_foot(point, a, b, c).length_squared() <= n * n * way_from(
                point,
                a,
                b,
                c,
                u,
                v,
                w,
            ).length_squared()
        }),
{
    let p = ExactProjections::of(point, a, b, c);
    let ab = b.minus(a);
    let ac = c.minus(a);
    let ap = point.minus(a);
    let (g, h, k) = (ab.dot(ab), ab.dot(ac), ac.dot(ac));
    let (n, m) = (p.divisor(), u + v + w);
    let (x, y, z) = p.weights();
    lemma_projections(point, a, b, c);
    lemma_foot_turns_away(p, g, h, k, m, v, w);
    let left = way_from_foot(point, a, b, c);
    let other = way_from(point, a, b, c, u, v, w);
    lemma_ways(point.x, a.x, b.x, c.x, x, y, z);
    lemma_ways(point.y, a.y, b.y, c.y, x, y, z);
    lemma_ways(point.z, a.z, b.z, c.z, x, y, z);
    lemma_ways(point.x, a.x, b.x, c.x, u, v, w);
    lemma_ways(point.y, a.y, b.y, c.y, u, v, w);
    lemma_ways(point.z, a.z, b.z, c.z, u, v, w);
    assert(left == ap.scaled(n).minus(ab.scaled(y)).minus(ac.scaled(z)));
    assert(other == ap.scaled(m).minus(ab.scaled(v)).minus(ac.scaled(w)));
    let (s, t) = (m * y - n * v, m * z - n * w);
    let way = ab.scaled(s).plus(ac.scaled(t));
    lemma_ways_compared(ap.x, ab.x, ac.x, n, m, y, z, v, w);
    lemma_ways_compared(ap.y, ab.y, ac.y, n, m, y, z, v, w);
    lemma_ways_compared(ap.z, ab.z, ac.z, n, m, y, z, v, w);
    assert(other.scaled(n) == left.scaled(m).plus(way));
    lemma_dot_distributes(ap.scaled(n).minus(ab.scaled(y)), ac.scaled(z), ab);
    lemma_dot_distributes(ap.scaled(n).minus(ab.scaled(y)), ac.scaled(z), ac);
    lemma_dot_distributes(ap.scaled(n), ab.scaled(y), ab);
    lemma_dot_distributes(ap.scaled(n), ab.scaled(y), ac);
    lemma_dot_scales(ap, n, ab);
    lemma_dot_scales(ap, n, ac);
    lemma_dot_scales(ab, y, ab);
    lemma_dot_scales(ab, y, ac);
    lemma_dot_scales(ac, z, ab);
    lemma_dot_scales(ac, z, ac);
    lemma_dot_distributes(ap, ab, ab);
    lemma_dot_distributes(ap, ac, ac);
    lemma_dot_distributes(ab, ac, ac);
    assert(left.dot(ab) == n * p.d1 - y * g - z * h);
    assert(left.dot(ac) == n * p.d2 - y * h - z * k);
    lemma_dot_distributes(ab.scaled(s), ac.scaled(t), left);
    lemma_dot_scales(ab, s, left);
    lemma_dot_scales(ac, t, left);
    lemma_dot_distributes(left, ab, ab);
    lemma_dot_distributes(left, ac, ac);
    assert(way.dot(left) >= 0);
    lemma_longer(left, way, m);
    lemma_scaled_length(other, n);
    lemma_scaled_length(left, m);
}

/// The square of a multiple.
proof fn lemma_scaled_length(a: Exact3, n: int)
    ensures
        a.scaled(n).length_squared() == n * n * a.length_squared(),
{
    lemma_dot_scales(a, n, a.scaled(n));
    lemma_dot_scales(a, n, a);
    lemma_dot_distributes(a, a.scaled(n), a);
    lemma_triple(n, n, a.dot(a));
}

/// A way that does not turn back makes a vector no shorter.
proof fn lemma_longer(left: Exact3, way: Exact3, m: int)
    requires
        way.dot(left) >= 0,
        m >= 0,
    ensures
        left.scaled(m).length_squared() <= left.scaled(m).plus(way).length_squared(),
{
    let base = left.scaled(m);
    lemma_length(way);
    lemma_dot_scales(left, m, way);
    lemma_dot_distributes(left, way, way);
    lemma_signs(m, way.dot(left));
    lemma_dot_distributes(base, way, base.plus(way));
    lemma_dot_distributes(base, way, base);
    lemma_dot_distributes(base, way, way);
    lemma_dot_distributes(base.plus(way), base, base);
    lemma_dot_distributes(base.plus(way), way, way);
}

/// A weighted way, seen from the first corner.
pub(crate) proof fn lemma_ways(p: int, a: int, b: int, c: int, u: int, v: int, w: int)
    ensures
        p * (u + v + w) - (a * u + b * v + c * w) == (p - a) * (u + v + w) - (b - a) * v - (c - a)
            * w,
{
    assert(p * (u + v + w) - (a * u + b * v + c * w) == (p - a) * (u + v + w) - (b - a) * v - (c
        - a) * w) by (nonlinear_arith);
}

proof fn lemma_ways_compared(
    p: int,
    b: int,
    c: int,
    n: int,
    m: int,
    y: int,
    z: int,
    v: int,
    w: int,
)
    ensures
        (p * m - b * v - c * w) * n == (p * n - b * y - c * z) * m + (b * (m * y - n * v) + c * (m
            * z - n * w)),
{
    assert((p * m - b * v - c * w) * n == (p * m) * n - (b * v) * n - (c * w) * n)
        by (nonlinear_arith);
    assert((p * n - b * y - c * z) * m == (p * n) * m - (b * y) * m - (c * z) * m)
        by (nonlinear_arith);
    lemma_triple(p, m, n);
    assert(b * (m * y - n * v) == (b * y) * m - (b * v) * n) by (nonlinear_arith);
    assert(c * (m * z - n * w) == (c * z) * m - (c * w) * n) by (nonlinear_arith);
}

/// A triangle whose corners are not on one line has a foot for every point. The
/// difference that says so is the square of twice its area.
pub proof fn law_proper_triangle_has_a_foot(point: Exact3, a: Exact3, b: Exact3, c: Exact3)
    requires
        ({
            let ab = b.minus(a);
            let ac = c.minus(a);
            ab.dot(ab) * ac.dot(ac) - ab.dot(ac) * ab.dot(ac) > 0
        }),
    ensures
        has_foot(point, a, b, c),
{
    let ab = b.minus(a);
    let ac = c.minus(a);
    lemma_projections(point, a, b, c);
    lemma_edges_have_lengths(ab.dot(ab), ab.dot(ac), ac.dot(ac));
}

/// Whether the corners of one triangle are those of another in some order.
pub open spec fn same_corners(
    a: Exact3,
    b: Exact3,
    c: Exact3,
    p: Exact3,
    q: Exact3,
    r: Exact3,
) -> bool {
    ||| (p, q, r) == (a, b, c)
    ||| (p, q, r) == (a, c, b)
    ||| (p, q, r) == (b, a, c)
    ||| (p, q, r) == (b, c, a)
    ||| (p, q, r) == (c, a, b)
    ||| (p, q, r) == (c, b, a)
}

/// The foot of one triangle is a point of the same corners in another order.
proof fn lemma_no_farther(
    point: Exact3,
    a: Exact3,
    b: Exact3,
    c: Exact3,
    p: Exact3,
    q: Exact3,
    r: Exact3,
)
    requires
        same_corners(a, b, c, p, q, r),
        has_foot(point, a, b, c),
        has_foot(point, p, q, r),
    ensures
        ({
            let n = ExactProjections::of(point, a, b, c).divisor();
            let m = ExactProjections::of(point, p, q, r).divisor();
            n * n * way_from_foot(point, p, q, r).length_squared() <= m * m * way_from_foot(
                point,
                a,
                b,
                c,
            ).length_squared()
        }),
{
    let (u, v, w) = ExactProjections::of(point, a, b, c).weights();
    law_foot_is_nearest(point, a, b, c, 1, 0, 0);
    let (x, y, z) = if (p, q, r) == (a, b, c) {
        (u, v, w)
    } else if (p, q, r) == (a, c, b) {
        (u, w, v)
    } else if (p, q, r) == (b, a, c) {
        (v, u, w)
    } else if (p, q, r) == (b, c, a) {
        (v, w, u)
    } else if (p, q, r) == (c, a, b) {
        (w, u, v)
    } else {
        (w, v, u)
    };
    law_foot_is_nearest(point, p, q, r, x, y, z);
    assert(way_from(point, p, q, r, x, y, z) == way_from(point, a, b, c, u, v, w));
}

/// The order of the corners does not matter to the exact distance. Both squared
/// distances are multiplied out by the divisors of the weights.
pub proof fn law_order_of_corners_leaves_the_exact_distance(
    point: Exact3,
    a: Exact3,
    b: Exact3,
    c: Exact3,
    p: Exact3,
    q: Exact3,
    r: Exact3,
)
    requires
        same_corners(a, b, c, p, q, r),
        has_foot(point, a, b, c),
        has_foot(point, p, q, r),
    ensures
        ({
            let n = ExactProjections::of(point, a, b, c).divisor();
            let m = ExactProjections::of(point, p, q, r).divisor();
            n * n * way_from_foot(point, p, q, r).length_squared() == m * m * way_from_foot(
                point,
                a,
                b,
                c,
            ).length_squared()
        }),
{
    lemma_no_farther(point, a, b, c, p, q, r);
    lemma_no_farther(point, p, q, r, a, b, c);
}

} // verus!
