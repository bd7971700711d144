//! Points nearest to a corner of a triangle or to an edge of its first corner:
//! whatever the size of the triangle, no point of it is nearer than what is
//! measured, up to rounding.
use crate::arithmetic::law_product_commutes;
use crate::binary32::{Binary32, ZERO};
use crate::choices::{exact_distance_squared, law_value_of_distance};
use crate::directions::{
    dot_sizes, exact_dot, law_value_of_dot, lemma_product_size, lemma_sizes_add,
    lemma_two_products, lemma_within,
};
use crate::grid::lemma_rounded_sum;
use crate::parting::{point_within, triangle_within};
use crate::rounding::{lemma_nearest_exact, lemma_units_at_least, units_of};
use crate::scatter::{
    lemma_dot_of_difference, lemma_dot_turned, lemma_dot_within, lemma_scaled_dots, Three,
};
use crate::triangle::{nearest_offset, Feature, Projections, Triangle};
use crate::value::{
    large, law_order_of_values, law_value_of_product, law_value_of_quotient, law_value_of_sum,
    law_values_of_constants, lemma_one_in_units, lemma_value_of_sign, lemma_value_of_signed, near,
    part, size, unit, value,
};
use crate::vector::Vec3;
use vstd::arithmetic::power2::pow2;
use vstd::prelude::*;

verus! {

/// The exact way from one point to another.
pub open spec fn exact_way(to: Vec3, from: Vec3) -> Three {
    Three::of(to).minus(Three::of(from))
}

/// The exact way to a point from the point of a triangle in which the corners
/// have the given weights.
pub open spec fn way_from_weights(point: Vec3, t: Triangle, u: real, v: real, w: real) -> Three {
    exact_way(point, t.a).scaled(u).plus(exact_way(point, t.b).scaled(v)).plus(
        exact_way(point, t.c).scaled(w),
    )
}

/// Whether real weights are those of a point of a triangle.
pub open spec fn are_weights(u: real, v: real, w: real) -> bool {
    u >= 0real && v >= 0real && w >= 0real && u + v + w == 1real
}

/// Whether coordinates are neither all very small nor too great.
pub open spec fn moderate(bound: real) -> bool {
    1real / 1024real <= bound <= 536870912real
}

pub(crate) proof fn lemma_moderate(bound: real, square: real)
    requires
        moderate(bound),
        square == bound * bound,
    ensures
        1real / 1048576real <= square <= 288230376151711744real,
        4real * unit() <= part(square) / 1024real,
{
    lemma_one_in_units();
    assert(1real / 1048576real <= square <= 288230376151711744real)
        by (nonlinear_arith)
        requires
            1real / 1024real <= bound <= 536870912real,
            square == bound * bound,
    ;
}

pub(crate) proof fn lemma_way(p: Vec3, q: Vec3, bound: real)
    requires
        point_within(p, bound),
        point_within(q, bound),
        moderate(bound),
    ensures
        p.minus(q).x.is_finite() && p.minus(q).y.is_finite() && p.minus(q).z.is_finite(),
        Three::of(p.minus(q)).minus(exact_way(p, q)).within(2real * part(bound)),
        Three::of(p.minus(q)).within(21real * bound / 10real),
        exact_way(p, q).within(2real * bound),
{
    lemma_way_coordinate(p.x, q.x, bound);
    lemma_way_coordinate(p.y, q.y, bound);
    lemma_way_coordinate(p.z, q.z, bound);
}

proof fn lemma_way_coordinate(p: Binary32, q: Binary32, bound: real)
    requires
        p.is_finite() && q.is_finite(),
        size(value(p)) <= bound && size(value(q)) <= bound,
        moderate(bound),
    ensures
        near(p.minus(q), value(p) - value(q), 2real * part(bound)),
        size(value(p.minus(q))) <= 21real * bound / 10real,
        size(value(p) - value(q)) <= 2real * bound,
{
    lemma_sizes_add(value(p), value(q));
    law_value_of_sum(p, q);
    lemma_within(value(p) - value(q), value(p.minus(q)), 2real * bound, 2real * part(bound));
}

/// A rounded product of ways.
#[verifier::rlimit(50)]
proof fn lemma_projection(f: Vec3, g: Vec3, x: Three, y: Three, bound: real, square: real)
    requires
        moderate(bound),
        square == bound * bound,
        f.x.is_finite() && f.y.is_finite() && f.z.is_finite(),
        g.x.is_finite() && g.y.is_finite() && g.z.is_finite(),
        Three::of(f).minus(x).within(2real * part(bound)),
        Three::of(g).minus(y).within(2real * part(bound)),
        Three::of(f).within(21real * bound / 10real),
        Three::of(g).within(21real * bound / 10real),
        x.within(2real * bound),
        y.within(2real * bound),
    ensures
        near(f.dot(g), x.dot(y), 96real * part(square)),
        size(value(f.dot(g))) <= 14real * square,
        size(x.dot(y)) <= 12real * square,
{
    lemma_moderate(bound, square);
    let (i, j) = (Three::of(f), Three::of(g));
    let (most, off) = (21real * bound / 10real, 2real * part(bound));
    assert(most * most == 441real * square / 100real) by (nonlinear_arith)
        requires
            most == 21real * bound / 10real,
            square == bound * bound,
    ;
    assert(off * most == 42real * part(square) / 10real) by (nonlinear_arith)
        requires
            most == 21real * bound / 10real,
            off == 2real * part(bound),
            square == bound * bound,
    ;
    assert((2real * bound) * off == 4real * part(square)) by (nonlinear_arith)
        requires
            off == 2real * part(bound),
            square == bound * bound,
    ;
    assert((2real * bound) * (2real * bound) == 4real * square) by (nonlinear_arith)
        requires
            square == bound * bound,
    ;
    lemma_product_size(i.x, j.x, most, most);
    lemma_product_size(i.y, j.y, most, most);
    lemma_product_size(i.z, j.z, most, most);
    assert(dot_sizes(f, g) <= 1323real * square / 100real);
    law_value_of_dot(f, g);
    lemma_dot_within(i.minus(x), j, off, most);
    lemma_dot_within(x, j.minus(y), 2real * bound, off);
    lemma_dot_within(i, j, most, most);
    lemma_dot_within(x, y, 2real * bound, 2real * bound);
    lemma_dot_of_difference(i, x, j);
    lemma_dot_of_difference(j, y, x);
    assert(i.dot(j) - x.dot(y) == i.minus(x).dot(j) + x.dot(j.minus(y)));
    lemma_sizes_add(i.minus(x).dot(j), x.dot(j.minus(y)));
    lemma_sizes_add(value(f.dot(g)) - i.dot(j), i.dot(j) - x.dot(y));
    lemma_within(i.dot(j), value(f.dot(g)), 1323real * square / 100real, 67real * part(square));
}

/// The exact projections of a point on the edges of a triangle.
pub struct RealProjections {
    pub d1: real,
    pub d2: real,
    pub d3: real,
    pub d4: real,
    pub d5: real,
    pub d6: real,
}

impl RealProjections {
    pub open spec fn of(point: Vec3, t: Triangle) -> RealProjections {
        let (ab, ac) = (exact_way(t.b, t.a), exact_way(t.c, t.a));
        RealProjections {
            d1: ab.dot(exact_way(point, t.a)),
            d2: ac.dot(exact_way(point, t.a)),
            d3: ab.dot(exact_way(point, t.b)),
            d4: ac.dot(exact_way(point, t.b)),
            d5: ab.dot(exact_way(point, t.c)),
            d6: ac.dot(exact_way(point, t.c)),
        }
    }
}

/// Whether rounded projections are close to exact ones.
pub open spec fn close(r: Projections, x: RealProjections, square: real) -> bool {
    &&& near(r.d1, x.d1, 96real * part(square)) && size(value(r.d1)) <= 14real * square
    &&& near(r.d2, x.d2, 96real * part(square)) && size(value(r.d2)) <= 14real * square
    &&& near(r.d3, x.d3, 96real * part(square)) && size(value(r.d3)) <= 14real * square
    &&& near(r.d4, x.d4, 96real * part(square)) && size(value(r.d4)) <= 14real * square
    &&& near(r.d5, x.d5, 96real * part(square)) && size(value(r.d5)) <= 14real * square
    &&& near(r.d6, x.d6, 96real * part(square)) && size(value(r.d6)) <= 14real * square
}

pub(crate) proof fn lemma_projections_are_close(point: Vec3, t: Triangle, bound: real, square: real)
    requires
        point_within(point, bound),
        triangle_within(t, bound),
        moderate(bound),
        square == bound * bound,
    ensures
        close(Projections::of(point, t), RealProjections::of(point, t), square),
{
    lemma_way(t.b, t.a, bound);
    lemma_way(t.c, t.a, bound);
    lemma_way(point, t.a, bound);
    lemma_way(point, t.b, bound);
    lemma_way(point, t.c, bound);
    let (ab, ac) = (t.b.minus(t.a), t.c.minus(t.a));
    let (i, j) = (exact_way(t.b, t.a), exact_way(t.c, t.a));
    let (p, q, r) = (exact_way(point, t.a), exact_way(point, t.b), exact_way(point, t.c));
    lemma_projection(ab, point.minus(t.a), i, p, bound, square);
    lemma_projection(ac, point.minus(t.a), j, p, bound, square);
    lemma_projection(ab, point.minus(t.b), i, q, bound, square);
    lemma_projection(ac, point.minus(t.b), j, q, bound, square);
    lemma_projection(ab, point.minus(t.c), i, r, bound, square);
    lemma_projection(ac, point.minus(t.c), j, r, bound, square);
}

proof fn lemma_share_below(u: real, x: real, error: real)
    requires
        u >= 0real,
        x <= error,
    ensures
        u * x <= u * error,
{
    assert(u * x <= u * error) by (nonlinear_arith)
        requires
            u >= 0real,
            x <= error,
    ;
}

/// Dot products of sums and multiples.
proof fn lemma_dot_of_scaled_sum(a: Three, b: Three, c: Three, u: real, v: real, w: real, p: Three)
    ensures
        p.dot(a.scaled(u).plus(b.scaled(v)).plus(c.scaled(w))) == u * p.dot(a) + v * p.dot(b) + w
            * p.dot(c),
{
    lemma_dot_coordinate(p.x, a.x, b.x, c.x, u, v, w);
    lemma_dot_coordinate(p.y, a.y, b.y, c.y, u, v, w);
    lemma_dot_coordinate(p.z, a.z, b.z, c.z, u, v, w);
    lemma_left_sum(u, p.x * a.x, p.y * a.y, p.z * a.z);
    lemma_left_sum(v, p.x * b.x, p.y * b.y, p.z * b.z);
    lemma_left_sum(w, p.x * c.x, p.y * c.y, p.z * c.z);
}

proof fn lemma_left_sum(u: real, x: real, y: real, z: real)
    ensures
        u * (x + y + z) == u * x + u * y + u * z,
{
    assert(u * (x + y + z) == u * x + u * y + u * z) by (nonlinear_arith);
}

proof fn lemma_dot_coordinate(p: real, a: real, b: real, c: real, u: real, v: real, w: real)
    ensures
        p * (u * a + v * b + w * c) == u * (p * a) + v * (p * b) + w * (p * c),
{
    lemma_left_sum(p, u * a, v * b, w * c);
    assert(p * (u * a) == u * (p * a)) by (nonlinear_arith);
    assert(p * (v * b) == v * (p * b)) by (nonlinear_arith);
    assert(p * (w * c) == w * (p * c)) by (nonlinear_arith);
}

/// Where the ways to a point from all corners do not turn back on a way to it, no
/// point of the triangle is nearer than that way is long.
pub(crate) proof fn lemma_no_nearer(
    way: Three,
    a: Three,
    b: Three,
    c: Three,
    u: real,
    v: real,
    w: real,
    error: real,
)
    requires
        are_weights(u, v, w),
        way.dot(a) >= way.dot(way) - error,
        way.dot(b) >= way.dot(way) - error,
        way.dot(c) >= way.dot(way) - error,
    ensures
        ({
            let q = a.scaled(u).plus(b.scaled(v)).plus(c.scaled(w));
            q.dot(q) >= way.dot(way) - 2real * error
        }),
{
    let q = a.scaled(u).plus(b.scaled(v)).plus(c.scaled(w));
    let s = way.dot(way) - error;
    lemma_dot_of_scaled_sum(a, b, c, u, v, w, way);
    lemma_share_below(u, s, way.dot(a));
    lemma_share_below(v, s, way.dot(b));
    lemma_share_below(w, s, way.dot(c));
    assert(u * s + v * s + w * s == s) by (nonlinear_arith)
        requires
            u + v + w == 1real,
    ;
    let gap = q.minus(way);
    assert(gap.x * gap.x >= 0real && gap.y * gap.y >= 0real && gap.z * gap.z >= 0real)
        by (nonlinear_arith);
    lemma_dot_of_difference(q, way, q);
    lemma_dot_of_difference(q, way, way);
    lemma_dot_of_difference(q, way, gap);
    lemma_dot_turned(q, way);
    lemma_dot_turned(q, gap);
    lemma_dot_turned(way, gap);
    assert(gap.dot(gap) == q.dot(q) - 2real * way.dot(q) + way.dot(way));
}

/// How the exact ways from the corners hang together with the projections.
pub(crate) proof fn lemma_real_projections(point: Vec3, t: Triangle)
    ensures
        ({
            let x = RealProjections::of(point, t);
            let (p, q, r) = (exact_way(point, t.a), exact_way(point, t.b), exact_way(point, t.c));
            &&& p.dot(q) == p.dot(p) - x.d1
            &&& p.dot(r) == p.dot(p) - x.d2
            &&& q.dot(p) == q.dot(q) + x.d3
            &&& q.dot(r) == q.dot(q) - (x.d4 - x.d3)
            &&& r.dot(p) == r.dot(r) + x.d6
            &&& r.dot(q) == r.dot(r) - (x.d5 - x.d6)
            &&& x.d1 - x.d3 == exact_way(t.b, t.a).dot(exact_way(t.b, t.a))
            &&& x.d2 - x.d6 == exact_way(t.c, t.a).dot(exact_way(t.c, t.a))
            &&& x.d2 - x.d4 == exact_way(t.c, t.a).dot(exact_way(t.b, t.a))
            &&& x.d1 - x.d5 == exact_way(t.b, t.a).dot(exact_way(t.c, t.a))
        }),
{
    let (p, q, r) = (exact_way(point, t.a), exact_way(point, t.b), exact_way(point, t.c));
    let (ab, ac) = (exact_way(t.b, t.a), exact_way(t.c, t.a));
    assert(q == p.minus(ab));
    assert(r == p.minus(ac));
    lemma_dot_of_difference(p, ab, p);
    lemma_dot_of_difference(p, ac, p);
    lemma_dot_of_difference(p, ab, q);
    lemma_dot_of_difference(p, ac, r);
    lemma_dot_of_difference(p, ab, r);
    lemma_dot_of_difference(p, ac, q);
    lemma_dot_of_difference(p, ab, ab);
    lemma_dot_of_difference(p, ac, ac);
    lemma_dot_of_difference(p, ab, ac);
    lemma_dot_of_difference(p, ac, ab);
    lemma_dot_turned(p, q);
    lemma_dot_turned(p, r);
    lemma_dot_turned(q, r);
    lemma_dot_turned(ab, ac);
    lemma_dot_turned(p, ab);
    lemma_dot_turned(p, ac);
    lemma_dot_turned(q, ab);
    lemma_dot_turned(q, ac);
    lemma_dot_turned(r, ab);
    lemma_dot_turned(r, ac);
}

/// The corner that a feature names.
pub open spec fn named_corner(t: Triangle, feature: Feature) -> Vec3 {
    match feature {
        Feature::CornerB => t.b,
        Feature::CornerC => t.c,
        _ => t.a,
    }
}

/// Where a corner is told to be nearest, the distance to it is measured, and no
/// point of the triangle is nearer, up to rounding.
#[verifier::rlimit(50)]
pub proof fn law_nearest_corner_is_nearest(
    point: Vec3,
    t: Triangle,
    u: real,
    v: real,
    w: real,
    bound: real,
)
    requires
        ({
            let feature = Projections::of(point, t).feature();
            feature is CornerA || feature is CornerB || feature is CornerC
        }),
        point_within(point, bound),
        triangle_within(t, bound),
        moderate(bound),
        are_weights(u, v, w),
    ensures
        ({
            let measured = nearest_offset(point, t).length_squared();
            let corner = named_corner(t, Projections::of(point, t).feature());
            let way = way_from_weights(point, t, u, v, w);
            &&& near(
                measured,
                exact_distance_squared(point, corner),
                130real * part(bound * bound),
            )
            &&& value(measured) <= way.dot(way) + 640real * part(bound * bound)
        }),
{
    let square = bound * bound;
    lemma_moderate(bound, square);
    lemma_projections_are_close(point, t, bound, square);
    lemma_real_projections(point, t);
    law_values_of_constants();
    let (r, x) = (Projections::of(point, t), RealProjections::of(point, t));
    let zero = Binary32::of(ZERO);
    let (p, q, o) = (exact_way(point, t.a), exact_way(point, t.b), exact_way(point, t.c));
    law_order_of_values(r.d1, zero);
    law_order_of_values(r.d2, zero);
    law_order_of_values(zero, r.d3);
    law_order_of_values(r.d4, r.d3);
    law_order_of_values(zero, r.d6);
    law_order_of_values(r.d5, r.d6);
    law_value_of_distance(point, t.a, bound);
    law_value_of_distance(point, t.b, bound);
    law_value_of_distance(point, t.c, bound);
    let error = 192real * part(square);
    if r.feature() is CornerA {
        lemma_no_nearer(p, p, q, o, u, v, w, error);
    } else if r.feature() is CornerB {
        lemma_no_nearer(q, p, q, o, u, v, w, error);
    } else {
        lemma_no_nearer(o, p, q, o, u, v, w, error);
    }
}

/// What the share of an edge comes to. The projections of the point on the edge,
/// from either end, are `i` and `j`, those on the other edge `k` and `l`.
#[verifier::rlimit(50)]
proof fn lemma_edge_share(
    i: Binary32,
    j: Binary32,
    k: Binary32,
    l: Binary32,
    square: real,
)
    requires
        i.is_finite() && j.is_finite() && k.is_finite() && l.is_finite(),
        size(value(i)) <= 14real * square && size(value(j)) <= 14real * square,
        size(value(k)) <= 14real * square && size(value(l)) <= 14real * square,
        value(i) >= 0real,
        value(j) <= 0real,
        i.times(l).minus(j.times(k)).le(Binary32::of(ZERO)),
        1real / 1048576real <= square <= 288230376151711744real,
        i.minus(j).is_finite(),
        value(i.minus(j)) >= 1real / 1267650600228229401496703205376real,
    ensures
        ({
            let share = i.over(i.minus(j));
            let f = value(share);
            let d = value(i.minus(j));
            &&& share.is_finite()
            &&& 0real <= f <= 1real + 4real * part(1real)
            &&& size(f * d - value(i)) <= 2real * part(d)
            &&& size(d - (value(i) - value(j))) <= part(28real * square)
            &&& d <= 29real * square
            &&& (1real - f) * value(k) + f * value(l) <= 160real * part(square)
        }),
{
    lemma_one_in_units();
    law_values_of_constants();
    let (x, y) = (value(i), value(j));
    law_value_of_sum(i, j);
    let d = value(i.minus(j));
    let whole = x - y;
    assert(size(d - whole) <= part(whole));
    assert(x <= whole && -y <= whole);
    let g = x / d;
    lemma_quotient_of_share(x, d, whole, g);
    law_value_of_quotient(i, i.minus(j));
    let share = i.over(i.minus(j));
    let f = value(share);
    assert(size(f - g) <= 2real * part(1real));
    lemma_product_size(f - g, d, 2real * part(1real), d);
    assert((2real * part(1real)) * d == 2real * part(d)) by (nonlinear_arith);
    assert((f - g) * d == f * d - g * d) by (nonlinear_arith);
    lemma_share_is_not_negative(i, i.minus(j));
    lemma_weight_not_above(i, j, k, l, square);
    lemma_other_projection(f, d, x, y, value(k), value(l), square);
}

proof fn lemma_quotient_of_share(x: real, d: real, whole: real, g: real)
    requires
        d > 0real,
        g == x / d,
        0real <= x <= whole,
        size(d - whole) <= part(whole),
    ensures
        g * d == x,
        0real <= g <= 1real + 2real * part(1real),
{
    assert(g * d == x) by (nonlinear_arith)
        requires
            g == x / d,
            d > 0real,
    ;
    assert(0real <= g <= 1real + 2real * part(1real)) by (nonlinear_arith)
        requires
            g * d == x,
            0real <= x <= whole,
            d > 0real,
            whole * (16777215real / 16777216real) <= d,
    ;
}

/// A quotient of numbers that are not negative is not negative.
proof fn lemma_share_is_not_negative(a: Binary32, b: Binary32)
    requires
        a.is_finite() && b.is_finite(),
        value(a) >= 0real,
        value(b) > 0real,
        a.over(b).is_finite(),
    ensures
        value(a.over(b)) >= 0real,
{
    reveal(Binary32::spec_over);
    lemma_value_of_sign(a);
    lemma_value_of_sign(b);
    lemma_value_of_sign(a.over(b));
    if a.negative() {
        lemma_quotient_of_nought(a, b);
    }
}

proof fn lemma_quotient_of_nought(a: Binary32, b: Binary32)
    requires
        a.is_finite() && b.is_finite(),
        value(a) == 0real,
        value(b) > 0real,
    ensures
        value(a.over(b)) == 0real,
{
    reveal(Binary32::spec_over);
    lemma_one_in_units();
    lemma_value_of_signed(a);
    lemma_value_of_signed(b);
    lemma_value_of_signed(a.over(b));
    lemma_units_at_least(b.magnitude());
    let d = units_of(b.magnitude());
    lemma_nearest_exact(0, d);
    assert(units_of(0) == 0);
    assert(0 * d == 0 && 0 * pow2(149) == 0) by (nonlinear_arith);
    assert(0real * unit() == 0real);
}

/// A rounded weight of a corner.
pub(crate) proof fn lemma_weight_near(
    i: Binary32,
    j: Binary32,
    k: Binary32,
    l: Binary32,
    square: real,
)
    requires
        i.is_finite() && j.is_finite() && k.is_finite() && l.is_finite(),
        size(value(i)) <= 14real * square && size(value(j)) <= 14real * square,
        size(value(k)) <= 14real * square && size(value(l)) <= 14real * square,
        1real / 1048576real <= square <= 288230376151711744real,
    ensures
        near(
            i.times(j).minus(k.times(l)),
            value(i) * value(j) - value(k) * value(l),
            1200real * part(square * square),
        ),
        size(value(i.times(j).minus(k.times(l)))) <= 400real * (square * square),
{
    lemma_one_in_units();
    let most = 14real * square;
    let area = square * square;
    lemma_product_size(value(i), value(j), most, most);
    lemma_product_size(value(k), value(l), most, most);
    assert(most * most == 196real * area) by (nonlinear_arith)
        requires
            most == 14real * square,
            area == square * square,
    ;
    assert(1real / 1099511627776real <= area <= 83076749736557242056487941267521536real)
        by (nonlinear_arith)
        requires
            area == square * square,
            1real / 1048576real <= square <= 288230376151711744real,
    ;
    lemma_two_products(i, j, k, l);
    lemma_sizes_add(value(i) * value(j), value(k) * value(l));
    lemma_within(
        value(i) * value(j) - value(k) * value(l),
        value(i.times(j).minus(k.times(l))),
        392real * area,
        1200real * part(area),
    );
}

/// Products of which the rounded difference is not above nought.
#[verifier::rlimit(50)]
proof fn lemma_weight_order(i: Binary32, j: Binary32, k: Binary32, l: Binary32)
    requires
        i.is_finite() && j.is_finite() && k.is_finite() && l.is_finite(),
        size(value(i) * value(l)) <= large() / 4real,
        size(value(j) * value(k)) <= large() / 4real,
        i.times(l).minus(j.times(k)).le(Binary32::of(ZERO)),
    ensures
        value(i) * value(l) - value(j) * value(k) <= 2real * part(
            size(value(i) * value(l)) + size(value(j) * value(k)),
        ) + 2real * unit(),
{
    lemma_one_in_units();
    law_values_of_constants();
    law_value_of_product(i, l);
    law_value_of_product(j, k);
    let (a, b) = (value(i.times(l)), value(j.times(k)));
    let (p, q) = (value(i) * value(l), value(j) * value(k));
    lemma_within(p, a, size(p), part(size(p)) + unit());
    lemma_within(q, b, size(q), part(size(q)) + unit());
    lemma_sizes_add(a, b);
    law_value_of_sum(i.times(l), j.times(k));
    law_order_of_values(i.times(l).minus(j.times(k)), Binary32::of(ZERO));
    assert(a <= b);
}

/// The projection on the other edge where an edge is nearest.
#[verifier::rlimit(50)]
proof fn lemma_other_projection(f: real, d: real, x: real, y: real, k: real, l: real, square: real)
    requires
        d >= 1real / 1267650600228229401496703205376real,
        square >= 1real / 1048576real,
        x >= 0real,
        y <= 0real,
        size(f * d - x) <= 2real * part(d),
        size(d - (x - y)) <= part(x - y),
        size(k) <= 14real * square,
        size(l) <= 14real * square,
        x * l - y * k <= 2real * part(size(x * l) + size(y * k)) + 2real * unit(),
    ensures
        (1real - f) * k + f * l <= 160real * part(square),
{
    lemma_one_in_units();
    let whole = x - y;
    assert(whole <= d + 2real * part(d));
    let most = 14real * square;
    let (a, b) = (f * d - x, (d - f * d) + y);
    lemma_product_size(a, l, 2real * part(d), most);
    lemma_product_size(b, k, 4real * part(d), most);
    lemma_product_size(x, l, x, most);
    lemma_product_size(y, k, -y, most);
    let area = d * square;
    assert(x * most + (-y) * most == whole * most) by (nonlinear_arith)
        requires
            whole == x - y,
    ;
    assert(whole * most <= 141real * area / 10real) by (nonlinear_arith)
        requires
            whole <= d + 2real * part(d),
            most == 14real * square,
            area == d * square,
            d > 0real,
            square > 0real,
    ;
    assert((2real * part(d)) * most == 28real * part(area)) by (nonlinear_arith)
        requires
            most == 14real * square,
            area == d * square,
    ;
    assert((4real * part(d)) * most == 56real * part(area)) by (nonlinear_arith)
        requires
            most == 14real * square,
            area == d * square,
    ;
    let e = (1real - f) * k + f * l;
    let (fd, rest) = (f * d, d - f * d);
    assert(d * e == rest * k + fd * l) by {
        lemma_times_shares(d, f, k, l);
    }
    assert(rest * k == b * k - y * k) by (nonlinear_arith)
        requires
            b == rest + y,
    ;
    assert(fd * l == a * l + x * l) by (nonlinear_arith)
        requires
            a == fd - x,
    ;
    assert(d * e <= 113real * part(area) + 2real * unit());
    let u = unit();
    assert(2real * u <= part(area)) by (nonlinear_arith)
        requires
            area == d * square,
            d >= 1real / 1267650600228229401496703205376real,
            square >= 1real / 1048576real,
            u < 1real / 1000000000000000000000000000000000000000000real,
            u <= 1real / 713623846352979940529142984724747568191373312real,
    ;
    assert(e <= 160real * part(square)) by (nonlinear_arith)
        requires
            d * e <= 114real * part(area),
            area == d * square,
            d > 0real,
            square > 0real,
    ;
}

proof fn lemma_times_shares(d: real, f: real, k: real, l: real)
    ensures
        d * ((1real - f) * k + f * l) == (d - f * d) * k + (f * d) * l,
{
    let (p, q) = ((1real - f) * k, f * l);
    assert(d * (p + q) == d * p + d * q) by (nonlinear_arith);
    assert(d * ((1real - f) * k) == (d - f * d) * k) by (nonlinear_arith);
    assert(d * (f * l) == (f * d) * l) by (nonlinear_arith);
}

/// The weight of the corner beyond an edge, as far as it is not above nought.
proof fn lemma_weight_not_above(
    i: Binary32,
    j: Binary32,
    k: Binary32,
    l: Binary32,
    square: real,
)
    requires
        i.is_finite() && j.is_finite() && k.is_finite() && l.is_finite(),
        size(value(i)) <= 14real * square && size(value(j)) <= 14real * square,
        size(value(k)) <= 14real * square && size(value(l)) <= 14real * square,
        i.times(l).minus(j.times(k)).le(Binary32::of(ZERO)),
        1real / 1048576real <= square <= 288230376151711744real,
    ensures
        value(i) * value(l) - value(j) * value(k) <= 2real * part(
            size(value(i) * value(l)) + size(value(j) * value(k)),
        ) + 2real * unit(),
{
    lemma_one_in_units();
    law_values_of_constants();
    let most = 14real * square;
    lemma_product_size(value(i), value(l), most, most);
    lemma_product_size(value(j), value(k), most, most);
    assert(most * most <= 16283050449205344990044180013498368000real)
        by (nonlinear_arith)
        requires
            most == 14real * square,
            1real / 1048576real <= square <= 288230376151711744real,
    ;
    lemma_weight_order(i, j, k, l);
}

/// A share of a coordinate of an edge.
#[verifier::rlimit(50)]
pub(crate) proof fn lemma_edge_product(edge: Binary32, share: Binary32, e: real, bound: real)
    requires
        moderate(bound),
        near(edge, e, 2real * part(bound)),
        size(e) <= 2real * bound,
        share.is_finite(),
        -(1real / 1000real) <= value(share) <= 1001real / 1000real,
    ensures
        near(edge.times(share), e * value(share), 43real * part(bound) / 10real),
        size(e * value(share)) <= 201real * bound / 100real,
{
    lemma_one_in_units();
    let (b, f) = (value(edge), value(share));
    let (off, wide) = (2real * part(bound), 21real * bound / 10real);
    let one = 1001real / 1000real;
    lemma_within(e, b, 2real * bound, off);
    lemma_product_size(b, f, wide, one);
    lemma_product_size(b - e, f, off, one);
    lemma_product_size(e, f, 2real * bound, one);
    assert(wide * one <= 211real * bound / 100real) by (nonlinear_arith)
        requires
            wide == 21real * bound / 10real,
            one == 1001real / 1000real,
            bound > 0real,
    ;
    assert(off * one == 2002real * part(bound) / 1000real) by (nonlinear_arith)
        requires
            off == 2real * part(bound),
            one == 1001real / 1000real,
    ;
    assert((2real * bound) * one == 2002real * bound / 1000real) by (nonlinear_arith)
        requires
            one == 1001real / 1000real,
    ;
    assert((b - e) * f == b * f - e * f) by (nonlinear_arith);
    law_value_of_product(edge, share);
    lemma_sizes_add(value(edge.times(share)) - b * f, b * f - e * f);
}

/// A coordinate of the way from the nearest point of an edge.
proof fn lemma_offset_coordinate(
    from: Binary32,
    edge: Binary32,
    share: Binary32,
    p: real,
    e: real,
    bound: real,
)
    requires
        moderate(bound),
        near(from, p, 2real * part(bound)),
        near(edge, e, 2real * part(bound)),
        size(p) <= 2real * bound,
        size(e) <= 2real * bound,
        share.is_finite(),
        0real <= value(share) <= 1real + 4real * part(1real),
    ensures
        near(from.minus(edge.times(share)), p - e * value(share), 11real * part(bound)),
        size(p - e * value(share)) <= 41real * bound / 10real,
{
    lemma_edge_product(edge, share, e, bound);
    let y = e * value(share);
    lemma_rounded_sum(
        from,
        edge.times(share),
        p,
        y,
        2real * part(bound),
        43real * part(bound) / 10real,
        42real * bound / 10real,
    );
    lemma_sizes_add(p, y);
}

/// The square of a coordinate that is off by a little.
#[verifier::rlimit(50)]
proof fn lemma_square_near(x: real, r: real, bound: real, square: real)
    requires
        size(x - r) <= 11real * part(bound),
        size(r) <= 41real * bound / 10real,
        bound > 0real,
        square == bound * bound,
    ensures
        size(x * x - r * r) <= 92real * part(square),
        0real <= x * x <= 17real * square,
{
    lemma_within(r, x, 41real * bound / 10real, 11real * part(bound));
    let (off, sum) = (x - r, x + r);
    lemma_sizes_add(x, r);
    let wide = 83real * bound / 10real;
    lemma_product_size(off, sum, 11real * part(bound), wide);
    assert((11real * part(bound)) * wide == 913real * part(square) / 10real) by (nonlinear_arith)
        requires
            wide == 83real * bound / 10real,
            square == bound * bound,
    ;
    assert(off * sum == x * x - r * r) by (nonlinear_arith)
        requires
            off == x - r,
            sum == x + r,
    ;
    let most = 411real * bound / 100real;
    lemma_product_size(x, x, most, most);
    assert(most * most == 168921real * square / 10000real) by (nonlinear_arith)
        requires
            most == 411real * bound / 100real,
            square == bound * bound,
    ;
    assert(x * x >= 0real) by (nonlinear_arith);
}

/// The squared length of the way from the nearest point of an edge.
#[verifier::rlimit(50)]
proof fn lemma_edge_measured(
    point: Vec3,
    a: Vec3,
    b: Vec3,
    share: Binary32,
    bound: real,
    square: real,
)
    requires
        point_within(point, bound) && point_within(a, bound) && point_within(b, bound),
        moderate(bound),
        square == bound * bound,
        share.is_finite(),
        0real <= value(share) <= 1real + 4real * part(1real),
    ensures
        ({
            let off = point.minus(a).minus(b.minus(a).scaled(share));
            let way = exact_way(point, a).minus(exact_way(b, a).scaled(value(share)));
            near(off.length_squared(), way.dot(way), 540real * part(square))
        }),
{
    lemma_moderate(bound, square);
    lemma_way(point, a, bound);
    lemma_way(b, a, bound);
    let (p, e, f) = (exact_way(point, a), exact_way(b, a), value(share));
    let (from, edge) = (point.minus(a), b.minus(a));
    lemma_offset_coordinate(from.x, edge.x, share, p.x, e.x, bound);
    lemma_offset_coordinate(from.y, edge.y, share, p.y, e.y, bound);
    lemma_offset_coordinate(from.z, edge.z, share, p.z, e.z, bound);
    assert(e.x * f == f * e.x && e.y * f == f * e.y && e.z * f == f * e.z) by (nonlinear_arith);
    let off = from.minus(edge.scaled(share));
    let way = p.minus(e.scaled(f));
    lemma_square_near(value(off.x), way.x, bound, square);
    lemma_square_near(value(off.y), way.y, bound, square);
    lemma_square_near(value(off.z), way.z, bound, square);
    assert(dot_sizes(off, off) == exact_dot(off, off));
    law_value_of_dot(off, off);
    lemma_sizes_add(
        value(off.length_squared()) - exact_dot(off, off),
        exact_dot(off, off) - way.dot(way),
    );
}

/// Whether rounded numbers are the projections of a point on two edges, seen from
/// both ends of the first.
spec fn project(
    point: Vec3,
    a: Vec3,
    b: Vec3,
    c: Vec3,
    i: Binary32,
    j: Binary32,
    k: Binary32,
    l: Binary32,
    square: real,
) -> bool {
    let (ab, ac) = (exact_way(b, a), exact_way(c, a));
    let (p, q) = (exact_way(point, a), exact_way(point, b));
    &&& near(i, ab.dot(p), 96real * part(square)) && size(value(i)) <= 14real * square
    &&& near(j, ab.dot(q), 96real * part(square)) && size(value(j)) <= 14real * square
    &&& near(k, ac.dot(p), 96real * part(square)) && size(value(k)) <= 14real * square
    &&& near(l, ac.dot(q), 96real * part(square)) && size(value(l)) <= 14real * square
}

/// Whether the nearest point of a triangle is told to lie on an edge whose length
/// does not vanish.
spec fn edge_is_nearest(i: Binary32, j: Binary32, k: Binary32, l: Binary32) -> bool {
    let zero = Binary32::of(ZERO);
    &&& i.times(l).minus(j.times(k)).le(zero)
    &&& zero.le(i)
    &&& j.le(zero)
    &&& i.minus(j).is_finite()
    &&& value(i.minus(j)) >= 1real / 1267650600228229401496703205376real
}

/// How a way from an edge turns against the edges.
#[verifier::rlimit(50)]
proof fn lemma_edge_turns(
    d1: real,
    d2: real,
    d3: real,
    d4: real,
    x: real,
    y: real,
    k: real,
    l: real,
    f: real,
    d: real,
    square: real,
)
    requires
        size(x - d1) <= 96real * part(square),
        size(y - d3) <= 96real * part(square),
        size(k - d2) <= 96real * part(square),
        size(l - d4) <= 96real * part(square),
        0real <= f <= 1real + 4real * part(1real),
        size(f * d - x) <= 2real * part(d),
        size(d - (x - y)) <= part(28real * square),
        d <= 29real * square,
        (1real - f) * k + f * l <= 160real * part(square),
        square > 0real,
        d > 0real,
    ensures
        size(d1 - f * (d1 - d3)) <= 380real * part(square),
        d2 - f * (d2 - d4) <= 360real * part(square),
{
    let p = part(square);
    let g = d1 - d3;
    let gap = g - d;
    assert(size(gap) <= 220real * p);
    let one = 1001real / 1000real;
    lemma_product_size(f, gap, one, 220real * p);
    assert(one * (220real * p) == 22022real * p / 100real) by (nonlinear_arith)
        requires
            one == 1001real / 1000real,
    ;
    assert(f * gap == f * g - f * d) by (nonlinear_arith)
        requires
            gap == g - d,
    ;
    assert(part(d) <= 29real * p);
    let (s, t) = (k - d2, l - d4);
    lemma_product_size(1real - f, s, one, 96real * p);
    lemma_product_size(f, t, one, 96real * p);
    assert(one * (96real * p) == 96096real * p / 1000real) by (nonlinear_arith)
        requires
            one == 1001real / 1000real,
    ;
    assert((1real - f) * s == (1real - f) * k - (1real - f) * d2) by (nonlinear_arith)
        requires
            s == k - d2,
    ;
    assert(f * t == f * l - f * d4) by (nonlinear_arith)
        requires
            t == l - d4,
    ;
    assert(d2 - f * (d2 - d4) == (1real - f) * d2 + f * d4) by (nonlinear_arith);
}

/// No point of a triangle is nearer than the nearest one of an edge that is told
/// to be nearest.
#[verifier::rlimit(50)]
proof fn lemma_edge_is_nearest(
    point: Vec3,
    a: Vec3,
    b: Vec3,
    c: Vec3,
    i: Binary32,
    j: Binary32,
    k: Binary32,
    l: Binary32,
    u: real,
    v: real,
    w: real,
    square: real,
)
    requires
        project(point, a, b, c, i, j, k, l, square),
        edge_is_nearest(i, j, k, l),
        1real / 1048576real <= square <= 288230376151711744real,
        are_weights(u, v, w),
    ensures
        ({
            let share = i.over(i.minus(j));
            let way = exact_way(point, a).minus(exact_way(b, a).scaled(value(share)));
            let other = exact_way(point, a).scaled(u).plus(exact_way(point, b).scaled(v)).plus(
                exact_way(point, c).scaled(w),
            );
            &&& share.is_finite()
            &&& 0real <= value(share) <= 1real + 4real * part(1real)
            &&& other.dot(other) >= way.dot(way) - 1500real * part(square)
        }),
{
    law_values_of_constants();
    law_order_of_values(Binary32::of(ZERO), i);
    law_order_of_values(j, Binary32::of(ZERO));
    lemma_edge_share(i, j, k, l, square);
    let share = i.over(i.minus(j));
    let (f, d) = (value(share), value(i.minus(j)));
    let (ab, ac) = (exact_way(b, a), exact_way(c, a));
    let (p, q, r) = (exact_way(point, a), exact_way(point, b), exact_way(point, c));
    let t = Triangle { a, b, c, halvings: 0 };
    lemma_real_projections(point, t);
    let x = RealProjections::of(point, t);
    lemma_edge_turns(
        x.d1,
        x.d2,
        x.d3,
        x.d4,
        value(i),
        value(j),
        value(k),
        value(l),
        f,
        d,
        square,
    );
    let way = p.minus(ab.scaled(f));
    lemma_dot_of_difference(p, ab.scaled(f), ab);
    lemma_dot_of_difference(p, ab.scaled(f), ac);
    lemma_scaled_dots(f, ab, ab);
    lemma_scaled_dots(f, ab, ac);
    lemma_dot_turned(ab, ac);
    lemma_dot_turned(p, ab);
    lemma_dot_turned(p, ac);
    lemma_dot_turned(way, ab);
    lemma_dot_turned(way, ac);
    let (m, n) = (way.dot(ab), way.dot(ac));
    assert(m == x.d1 - f * (x.d1 - x.d3));
    assert(n == x.d2 - f * (x.d2 - x.d4));
    lemma_scaled_dots(f, ab, way);
    lemma_dot_of_difference(p, ab.scaled(f), way);
    lemma_dot_turned(way, p);
    lemma_dot_turned(way, ab.scaled(f));
    assert(way.dot(p) == way.dot(way) + f * m);
    assert(q == p.minus(ab));
    assert(r == p.minus(ac));
    lemma_dot_of_difference(p, ab, way);
    lemma_dot_of_difference(p, ac, way);
    let error = 380real * part(square);
    let one = 1001real / 1000real;
    lemma_product_size(f, m, one, error);
    assert(one * error == 38038real * part(square) / 100real) by (nonlinear_arith)
        requires
            one == 1001real / 1000real,
            error == 380real * part(square),
    ;
    lemma_product_size(1real - f, m, one, error);
    assert((1real - f) * m == m - f * m) by (nonlinear_arith);
    lemma_no_nearer(way, p, q, r, u, v, w, 750real * part(square));
}

/// Where an edge of the first corner is told to be nearest, and it does not
/// vanish, the distance to a point of it is measured, and no point of the
/// triangle is nearer, up to rounding.
#[verifier::rlimit(50)]
pub proof fn law_nearest_edge_is_nearest(
    point: Vec3,
    t: Triangle,
    u: real,
    v: real,
    w: real,
    bound: real,
)
    requires
        ({
            let p = Projections::of(point, t);
            let least = 1real / 1267650600228229401496703205376real;
            ||| p.feature() is EdgeAb && value(p.d1.minus(p.d3)) >= least
            ||| p.feature() is EdgeAc && value(p.d2.minus(p.d6)) >= least
        }),
        point_within(point, bound),
        triangle_within(t, bound),
        moderate(bound),
        are_weights(u, v, w),
    ensures
        ({
            let measured = nearest_offset(point, t).length_squared();
            let way = way_from_weights(point, t, u, v, w);
            &&& measured.is_finite()
            &&& value(measured) <= way.dot(way) + 2048real * part(bound * bound)
            &&& exists|f: real, corner: Vec3| #[trigger]
                measured_on_edge(measured, point, t.a, corner, f, 540real * part(bound * bound))
                    && (corner == t.b || corner == t.c)
        }),
{
    let square = bound * bound;
    lemma_moderate(bound, square);
    lemma_projections_are_close(point, t, bound, square);
    let r = Projections::of(point, t);
    law_value_of_sum(r.d1, r.d3);
    law_value_of_sum(r.d2, r.d6);
    let measured = nearest_offset(point, t).length_squared();
    if r.feature() is EdgeAb {
        lemma_edge_is_nearest(point, t.a, t.b, t.c, r.d1, r.d3, r.d2, r.d4, u, v, w, square);
        let share = r.d1.over(r.d1.minus(r.d3));
        lemma_edge_measured(point, t.a, t.b, share, bound, square);
        assert(measured_on_edge(
            measured,
            point,
            t.a,
            t.b,
            value(share),
            540real * part(bound * bound),
        ));
    } else {
        law_product_commutes(r.d5, r.d2);
        law_product_commutes(r.d1, r.d6);
        lemma_edge_is_nearest(point, t.a, t.c, t.b, r.d2, r.d6, r.d1, r.d5, u, w, v, square);
        let share = r.d2.over(r.d2.minus(r.d6));
        lemma_edge_measured(point, t.a, t.c, share, bound, square);
        assert(measured_on_edge(
            measured,
            point,
            t.a,
            t.c,
            value(share),
            540real * part(bound * bound),
        ));
    }
}

/// Whether a measured square of a distance is that to the point that lies a share
/// of the way from one corner to another, up to an error.
pub open spec fn measured_on_edge(
    measured: Binary32,
    point: Vec3,
    from: Vec3,
    corner: Vec3,
    share: real,
    error: real,
) -> bool {
    let way = exact_way(point, from).minus(exact_way(corner, from).scaled(share));
    0real <= share <= 1real + 4real * part(1real) && near(measured, way.dot(way), error)
}

/// A share of a sum of numbers that are not negative.
#[verifier::rlimit(50)]
proof fn lemma_share_of_sum(a: Binary32, b: Binary32, square: real)
    requires
        a.is_finite() && b.is_finite(),
        0real <= value(a) <= 29real * square,
        0real <= value(b) <= 29real * square,
        1real / 1048576real <= square <= 288230376151711744real,
        value(a.plus(b)) > 0real,
    ensures
        ({
            let share = a.over(a.plus(b));
            let (f, d) = (value(share), value(a.plus(b)));
            &&& share.is_finite()
            &&& 0real <= f <= 1real + 4real * part(1real)
            &&& size(f * d - value(a)) <= 2real * part(d)
            &&& size(d - (value(a) + value(b))) <= 2real * part(d)
            &&& d <= 59real * square
        }),
{
    lemma_one_in_units();
    let (x, y) = (value(a), value(b));
    law_value_of_sum(a, b);
    let d = value(a.plus(b));
    let whole = x + y;
    let g = x / d;
    lemma_quotient_of_share(x, d, whole, g);
    law_value_of_quotient(a, a.plus(b));
    let f = value(a.over(a.plus(b)));
    lemma_product_size(f - g, d, 2real * part(1real), d);
    assert((2real * part(1real)) * d == 2real * part(d)) by (nonlinear_arith);
    assert((f - g) * d == f * d - g * d) by (nonlinear_arith);
    lemma_share_is_not_negative(a, a.plus(b));
}

/// The projection on the edge from the first corner where the edge across from it
/// is nearest. The rounded projections are `q3` to `q6`.
#[verifier::rlimit(50)]
proof fn lemma_far_projection(
    f: real,
    d: real,
    a: real,
    b: real,
    q3: real,
    q4: real,
    q5: real,
    q6: real,
    square: real,
    slimness: real,
)
    requires
        square >= 1real / 1048576real,
        0real < d <= 59real * square,
        slimness * d >= square,
        slimness >= 1real,
        size(f * d - a) <= 2real * part(d),
        size(d - (a + b)) <= 2real * part(d),
        size(a - (q4 - q3)) <= part(28real * square),
        size(b - (q5 - q6)) <= part(28real * square),
        size(q3) <= 14real * square,
        size(q5) <= 14real * square,
        q4 * q5 - q3 * q6 >= -(800real * part(square * square)),
    ensures
        (1real - f) * q3 + f * q5 >= -(8192real * (slimness * part(square))),
{
    let most = 14real * square;
    let area = square * square;
    let off = 264real * part(square);
    let (s, t) = ((d - f * d) - (q5 - q6), f * d - (q4 - q3));
    assert(size(s) <= off);
    assert(size(t) <= off);
    lemma_product_size(s, q3, off, most);
    lemma_product_size(t, q5, off, most);
    assert(off * most == 3696real * part(area)) by (nonlinear_arith)
        requires
            off == 264real * part(square),
            most == 14real * square,
            area == square * square,
    ;
    let e = (1real - f) * q3 + f * q5;
    let (fd, rest) = (f * d, d - f * d);
    lemma_times_shares(d, f, q3, q5);
    assert(d * e == rest * q3 + fd * q5);
    let (m, n) = (q5 - q6, q4 - q3);
    assert(rest * q3 == s * q3 + m * q3) by (nonlinear_arith)
        requires
            s == rest - m,
    ;
    assert(fd * q5 == t * q5 + n * q5) by (nonlinear_arith)
        requires
            t == fd - n,
    ;
    assert(m * q3 + n * q5 == q4 * q5 - q3 * q6) by (nonlinear_arith)
        requires
            m == q5 - q6,
            n == q4 - q3,
    ;
    assert(d * e >= -(8192real * part(area)));
    lemma_divided_by_length(d, e, square, slimness);
}

proof fn lemma_divided_by_length(d: real, e: real, square: real, slimness: real)
    requires
        d > 0real,
        square > 0real,
        slimness * d >= square,
        d * e >= -(8192real * part(square * square)),
    ensures
        e >= -(8192real * (slimness * part(square))),
{
    let k = slimness * square;
    assert(d * k >= square * square) by (nonlinear_arith)
        requires
            slimness * d >= square,
            k == slimness * square,
            square > 0real,
    ;
    assert(slimness * part(square) == part(k)) by (nonlinear_arith)
        requires
            k == slimness * square,
    ;
    let area = square * square;
    assert(e >= -(8192real * part(k))) by (nonlinear_arith)
        requires
            d * k >= area,
            d * e >= -(8192real * part(area)),
            d > 0real,
    ;
}

/// How a way from the edge across from the first corner turns against the edges.
#[verifier::rlimit(50)]
proof fn lemma_far_edge_turns(
    x: RealProjections,
    r: Projections,
    f: real,
    d: real,
    square: real,
    slimness: real,
)
    requires
        close(r, x, square),
        1real / 1048576real <= square <= 288230376151711744real,
        slimness >= 1real,
        r.d4.minus(r.d3).is_finite() && r.d5.minus(r.d6).is_finite(),
        size(value(r.d4.minus(r.d3)) - (value(r.d4) - value(r.d3))) <= part(28real * square),
        size(value(r.d5.minus(r.d6)) - (value(r.d5) - value(r.d6))) <= part(28real * square),
        0real <= f <= 1real + 4real * part(1real),
        0real < d <= 59real * square,
        size(f * d - value(r.d4.minus(r.d3))) <= 2real * part(d),
        size(d - (value(r.d4.minus(r.d3)) + value(r.d5.minus(r.d6)))) <= 2real * part(d),
        (1real - f) * value(r.d3) + f * value(r.d5) >= -(8192real * (slimness * part(square))),
    ensures
        size((x.d4 - x.d3) - f * ((x.d4 - x.d3) + (x.d5 - x.d6))) <= 1000real * part(square),
        (1real - f) * x.d3 + f * x.d5 >= -(8400real * (slimness * part(square))),
{
    let p = part(square);
    let (a, b) = (value(r.d4.minus(r.d3)), value(r.d5.minus(r.d6)));
    let (g, h) = (x.d4 - x.d3, x.d5 - x.d6);
    lemma_sizes_add(value(r.d4) - x.d4, value(r.d3) - x.d3);
    lemma_sizes_add(value(r.d5) - x.d5, value(r.d6) - x.d6);
    assert(size(a - g) <= 220real * p);
    assert(size(b - h) <= 220real * p);
    assert(part(d) <= 59real * p);
    let gap = (g + h) - d;
    assert(size(gap) <= 558real * p);
    let one = 1001real / 1000real;
    lemma_product_size(f, gap, one, 558real * p);
    assert(one * (558real * p) <= 559real * p) by (nonlinear_arith)
        requires
            one == 1001real / 1000real,
            p >= 0real,
    ;
    assert(f * gap == f * (g + h) - f * d) by (nonlinear_arith)
        requires
            gap == (g + h) - d,
    ;
    let (s, t) = (value(r.d3) - x.d3, value(r.d5) - x.d5);
    lemma_product_size(1real - f, s, one, 96real * p);
    lemma_product_size(f, t, one, 96real * p);
    assert(one * (96real * p) <= 97real * p) by (nonlinear_arith)
        requires
            one == 1001real / 1000real,
            p >= 0real,
    ;
    lemma_left_difference(1real - f, value(r.d3), x.d3);
    lemma_left_difference(f, value(r.d5), x.d5);
    assert(p <= slimness * p) by (nonlinear_arith)
        requires
            slimness >= 1real,
            p >= 0real,
    ;
}

/// Where the edge across from the first corner is told to be nearest, the
/// distance to a point of it is measured, and no point of the triangle is nearer,
/// up to rounding and to how slim the triangle is: by what factor the square of
/// the greatest coordinate may surpass that of the length of the edge.
#[verifier::rlimit(50)]
pub proof fn law_nearest_far_edge_is_nearest(
    point: Vec3,
    t: Triangle,
    u: real,
    v: real,
    w: real,
    bound: real,
    slimness: real,
)
    requires
        ({
            let p = Projections::of(point, t);
            &&& p.feature() is EdgeBc
            &&& slimness * value(p.d4.minus(p.d3).plus(p.d5.minus(p.d6))) >= bound * bound
        }),
        slimness >= 1real,
        point_within(point, bound),
        triangle_within(t, bound),
        moderate(bound),
        are_weights(u, v, w),
    ensures
        ({
            let measured = nearest_offset(point, t).length_squared();
            let way = way_from_weights(point, t, u, v, w);
            &&& measured.is_finite()
            &&& value(measured) <= way.dot(way) + 20480real * (slimness * part(bound * bound))
            &&& exists|f: real| #[trigger]
                measured_on_edge(measured, point, t.b, t.c, f, 540real * part(bound * bound))
        }),
{
    let square = bound * bound;
    lemma_moderate(bound, square);
    lemma_projections_are_close(point, t, bound, square);
    lemma_real_projections(point, t);
    law_values_of_constants();
    let (r, x) = (Projections::of(point, t), RealProjections::of(point, t));
    let zero = Binary32::of(ZERO);
    let (towards_c, towards_b) = (r.d4.minus(r.d3), r.d5.minus(r.d6));
    lemma_sizes_add(value(r.d4), value(r.d3));
    lemma_sizes_add(value(r.d5), value(r.d6));
    law_value_of_sum(r.d4, r.d3);
    law_value_of_sum(r.d5, r.d6);
    law_order_of_values(zero, towards_c);
    law_order_of_values(zero, towards_b);
    let d = value(towards_c.plus(towards_b));
    assert(d > 0real) by (nonlinear_arith)
        requires
            slimness * d >= square,
            square > 0real,
            slimness >= 1real,
    ;
    lemma_share_of_sum(towards_c, towards_b, square);
    let share = towards_c.over(towards_c.plus(towards_b));
    let f = value(share);
    law_product_commutes(r.d5, r.d4);
    lemma_far_weight(r, square);
    lemma_far_projection(
        f,
        d,
        value(towards_c),
        value(towards_b),
        value(r.d3),
        value(r.d4),
        value(r.d5),
        value(r.d6),
        square,
        slimness,
    );
    lemma_far_edge_turns(x, r, f, d, square, slimness);
    lemma_far_edge_is_nearest(point, t, x, f, u, v, w, square, slimness);
    lemma_edge_measured(point, t.b, t.c, share, bound, square);
    assert(part(square) <= slimness * part(square)) by (nonlinear_arith)
        requires
            slimness >= 1real,
            square > 0real,
    ;
    assert(measured_on_edge(
        nearest_offset(point, t).length_squared(),
        point,
        t.b,
        t.c,
        f,
        540real * part(bound * bound),
    ));
}

/// The weight of the first corner where it is not above nought.
proof fn lemma_far_weight(r: Projections, square: real)
    requires
        r.va().le(Binary32::of(ZERO)),
        r.d3.is_finite() && r.d4.is_finite() && r.d5.is_finite() && r.d6.is_finite(),
        size(value(r.d3)) <= 14real * square && size(value(r.d4)) <= 14real * square,
        size(value(r.d5)) <= 14real * square && size(value(r.d6)) <= 14real * square,
        1real / 1048576real <= square <= 288230376151711744real,
    ensures
        value(r.d4) * value(r.d5) - value(r.d3) * value(r.d6) >= -(800real * part(
            square * square,
        )),
{
    lemma_one_in_units();
    lemma_weight_not_above(r.d3, r.d5, r.d4, r.d6, square);
    let most = 14real * square;
    lemma_product_size(value(r.d3), value(r.d6), most, most);
    lemma_product_size(value(r.d5), value(r.d4), most, most);
    let area = square * square;
    assert(most * most == 196real * area) by (nonlinear_arith)
        requires
            most == 14real * square,
            area == square * square,
    ;
    assert(area >= 1real / 1099511627776real) by (nonlinear_arith)
        requires
            area == square * square,
            square >= 1real / 1048576real,
    ;
    let (i, j) = (value(r.d4), value(r.d5));
    assert(i * j == j * i) by (nonlinear_arith);
}

/// No point of a triangle is nearer than that of the edge across from the first
/// corner.
#[verifier::rlimit(50)]
proof fn lemma_far_edge_is_nearest(
    point: Vec3,
    t: Triangle,
    x: RealProjections,
    f: real,
    u: real,
    v: real,
    w: real,
    square: real,
    slimness: real,
)
    requires
        x == RealProjections::of(point, t),
        0real <= f <= 1real + 4real * part(1real),
        size((x.d4 - x.d3) - f * ((x.d4 - x.d3) + (x.d5 - x.d6))) <= 1000real * part(square),
        (1real - f) * x.d3 + f * x.d5 >= -(8400real * (slimness * part(square))),
        slimness >= 1real,
        square > 0real,
        are_weights(u, v, w),
    ensures
        ({
            let way = exact_way(point, t.b).minus(exact_way(t.c, t.b).scaled(f));
            let other = way_from_weights(point, t, u, v, w);
            other.dot(other) >= way.dot(way) - 19200real * (slimness * part(square))
        }),
{
    let (ab, bc) = (exact_way(t.b, t.a), exact_way(t.c, t.b));
    let (p, q, r) = (exact_way(point, t.a), exact_way(point, t.b), exact_way(point, t.c));
    let ac = exact_way(t.c, t.a);
    let way = q.minus(bc.scaled(f));
    assert(bc == ac.minus(ab));
    assert(r == q.minus(bc));
    assert(q == p.minus(ab));
    lemma_dot_of_difference(ac, ab, q);
    lemma_dot_of_difference(ac, ab, r);
    lemma_dot_of_difference(q, bc, bc);
    lemma_dot_turned(q, bc);
    lemma_dot_turned(r, bc);
    assert(bc.dot(q) == x.d4 - x.d3);
    assert(bc.dot(r) == x.d6 - x.d5);
    assert(bc.dot(bc) == (x.d4 - x.d3) + (x.d5 - x.d6));
    lemma_scaled_dots(f, bc, bc);
    lemma_dot_of_difference(q, bc.scaled(f), bc);
    let m = way.dot(bc);
    assert(m == (x.d4 - x.d3) - f * bc.dot(bc));
    lemma_scaled_dots(f, bc, ab);
    lemma_dot_of_difference(q, bc.scaled(f), ab);
    lemma_dot_of_difference(q, bc, ab);
    lemma_dot_turned(q, ab);
    lemma_dot_turned(r, ab);
    lemma_dot_turned(bc, ab);
    let n = way.dot(ab);
    assert(bc.dot(ab) == x.d3 - x.d5);
    assert(n == x.d3 - f * (x.d3 - x.d5));
    assert(x.d3 - f * (x.d3 - x.d5) == (1real - f) * x.d3 + f * x.d5) by (nonlinear_arith);
    lemma_scaled_dots(f, bc, way);
    lemma_dot_of_difference(q, bc.scaled(f), way);
    lemma_dot_of_difference(q, bc, way);
    lemma_dot_of_difference(p, ab, way);
    assert(way.dot(q) == way.dot(way) + f * m);
    assert(way.dot(r) == way.dot(q) - m);
    assert(way.dot(p) == way.dot(q) + n);
    let error = 1000real * part(square);
    let one = 1001real / 1000real;
    lemma_product_size(f, m, one, error);
    lemma_product_size(1real - f, m, one, error);
    assert(one * error == 1001real * part(square)) by (nonlinear_arith)
        requires
            one == 1001real / 1000real,
            error == 1000real * part(square),
    ;
    assert((1real - f) * m == m - f * m) by (nonlinear_arith);
    let whole = slimness * part(square);
    assert(part(square) <= whole) by (nonlinear_arith)
        requires
            whole == slimness * part(square),
            slimness >= 1real,
            square > 0real,
    ;
    lemma_no_nearer(way, p, q, r, u, v, w, 9600real * whole);
}

proof fn lemma_left_difference(x: real, u: real, v: real)
    ensures
        x * (u - v) == x * u - x * v,
{
    assert(x * (u - v) == x * u - x * v) by (nonlinear_arith);
}

} // verus!
