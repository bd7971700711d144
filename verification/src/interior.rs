//! Points nearest to the inside of a triangle: no point of it is nearer than what
//! is measured, up to rounding and to how slim the triangle is.
use crate::beside::{
    are_weights, close, exact_way, lemma_edge_product, lemma_moderate, lemma_no_nearer,
    lemma_projections_are_close, lemma_real_projections, lemma_way, lemma_weight_near, moderate,
    way_from_weights, RealProjections,
};
use crate::binary32::{Binary32, ONE};
use crate::directions::{
    dot_sizes, exact_dot, law_value_of_dot, lemma_product_size, lemma_sizes_add, lemma_within,
};
use crate::grid::lemma_rounded_sum;
use crate::parting::{point_within, triangle_within};
use crate::scatter::{
    lemma_dot_of_difference, lemma_dot_turned, lemma_scaled_dots, Three,
};
use crate::triangle::{nearest_offset, Projections, Triangle};
use crate::value::{
    law_value_of_product, law_value_of_quotient, law_value_of_sum, law_values_of_constants,
    lemma_one_in_units, near, part, size, unit, value,
};
use crate::vector::Vec3;
use vstd::prelude::*;

verus! {

/// The sum of the weights of the corners, as it is computed.
pub open spec fn weight_sum(r: Projections) -> Binary32 {
    r.va().plus(r.vb()).plus(r.vc())
}

/// Whether no weight of a corner is negative, and their sum is not small against
/// a square: by what factor the square may surpass it is the slimness.
pub open spec fn well_inside(r: Projections, square: real, slimness: real) -> bool {
    &&& value(r.va()) >= 0real
    &&& value(r.vb()) >= 0real
    &&& value(r.vc()) >= 0real
    &&& slimness * value(weight_sum(r)) >= square * square
    &&& 1real <= slimness <= 1000000real
}

/// The share of a corner, times the sum of the weights.
#[verifier::rlimit(50)]
proof fn lemma_share(weight: Binary32, sum: Binary32)
    requires
        weight.is_finite() && sum.is_finite(),
        0real <= value(weight) <= value(sum) + 4real * part(value(sum)),
        1real / 1267650600228229401496703205376real <= value(sum)
            <= 1267650600228229401496703205376real,
    ensures
        ({
            let share = weight.times(Binary32::of(ONE).over(sum));
            let n = value(sum);
            &&& share.is_finite()
            &&& size(n * value(share) - value(weight)) <= 4real * part(n)
        }),
{
    lemma_one_in_units();
    law_values_of_constants();
    let (p, n, u) = (value(weight), value(sum), unit());
    let t = 1real / n;
    assert(n * t == 1real && t > 0real) by (nonlinear_arith)
        requires
            t == 1real / n,
            n > 0real,
    ;
    assert(t <= 1267650600228229401496703205376real) by (nonlinear_arith)
        requires
            n * t == 1real,
            n >= 1real / 1267650600228229401496703205376real,
            t > 0real,
    ;
    law_value_of_quotient(Binary32::of(ONE), sum);
    let q = value(Binary32::of(ONE).over(sum));
    let off = q - t;
    let nu = n * u;
    assert(0real <= nu <= part(1real) / 1000real) by (nonlinear_arith)
        requires
            nu == n * u,
            0real < n <= 1267650600228229401496703205376real,
            0real < u <= 1real / 713623846352979940529142984724747568191373312real,
    ;
    lemma_product_size(n, off, n, part(t) + u / 2real);
    assert(n * (part(t) + u / 2real) == part(n * t) + nu / 2real) by (nonlinear_arith)
        requires
            nu == n * u,
    ;
    assert(n * q == 1real + n * off) by (nonlinear_arith)
        requires
            off == q - t,
            n * t == 1real,
    ;
    let nq = n * q;
    assert(size(nq - 1real) <= 11real * part(1real) / 10real);
    lemma_product_size(p, nq - 1real, p, 11real * part(1real) / 10real);
    assert(p * (11real * part(1real) / 10real) == 11real * part(p) / 10real) by (nonlinear_arith);
    let pq = p * q;
    assert(n * pq == p * nq) by (nonlinear_arith)
        requires
            pq == p * q,
            nq == n * q,
    ;
    assert(p * (nq - 1real) == p * nq - p) by (nonlinear_arith);
    assert(size(n * pq - p) <= 12real * part(n) / 10real);
    assert(0real <= n * pq <= n + n / 10real);
    assert(0real <= pq <= 11real / 10real) by (nonlinear_arith)
        requires
            0real <= n * pq <= n + n / 10real,
            n > 0real,
    ;
    law_value_of_product(weight, Binary32::of(ONE).over(sum));
    let v = value(weight.times(Binary32::of(ONE).over(sum)));
    lemma_product_size(n, v - pq, n, part(pq) + u / 2real);
    assert(n * (part(pq) + u / 2real) == part(n * pq) + nu / 2real) by (nonlinear_arith)
        requires
            nu == n * u,
    ;
    assert(n * (v - pq) == n * v - n * pq) by (nonlinear_arith);
    assert(nu / 2real <= part(n)) by (nonlinear_arith)
        requires
            nu == n * u,
            0real < u < 1real / 1000000000000000000000000000000000000000000real,
            n > 0real,
    ;
    lemma_sizes_add(n * v - n * pq, n * pq - p);
}

/// The products of projections with the weights cancel each other out.
proof fn lemma_weights_cancel(d1: real, d2: real, d3: real, d4: real, d5: real, d6: real)
    ensures
        ({
            let (a, b, c) = (d3 * d6 - d5 * d4, d5 * d2 - d1 * d6, d1 * d4 - d3 * d2);
            &&& a * d1 + b * d3 + c * d5 == 0real
            &&& a * d2 + b * d4 + c * d6 == 0real
        }),
{
    lemma_times_pair(d3 * d6, d5 * d4, d1);
    lemma_times_pair(d5 * d2, d1 * d6, d3);
    lemma_times_pair(d1 * d4, d3 * d2, d5);
    lemma_times_pair(d3 * d6, d5 * d4, d2);
    lemma_times_pair(d5 * d2, d1 * d6, d4);
    lemma_times_pair(d1 * d4, d3 * d2, d6);
    lemma_triple(d3, d6, d1);
    lemma_triple(d5, d4, d1);
    lemma_triple(d5, d2, d3);
    lemma_triple(d3, d6, d2);
    lemma_triple(d5, d4, d2);
    lemma_triple(d1, d6, d4);
}

proof fn lemma_times_pair(a: real, b: real, c: real)
    ensures
        (a - b) * c == a * c - b * c,
{
    assert((a - b) * c == a * c - b * c) by (nonlinear_arith);
}

/// A product of three in all the orders that are needed.
proof fn lemma_triple(a: real, b: real, c: real)
    ensures
        (a * b) * c == (c * b) * a,
        (a * b) * c == (a * c) * b,
        (a * b) * c == (c * a) * b,
{
    assert((a * b) * c == (c * b) * a) by (nonlinear_arith);
    assert((a * b) * c == (a * c) * b) by (nonlinear_arith);
    assert((a * b) * c == (c * a) * b) by (nonlinear_arith);
}

/// A combination of projections with shares, against the one with weights.
#[verifier::rlimit(50)]
proof fn lemma_combination(
    n: real,
    v: real,
    w: real,
    a: real,
    b: real,
    c: real,
    x: real,
    y: real,
    z: real,
    square: real,
)
    requires
        n > 0real,
        size(n * v - b) <= 4real * part(n),
        size(n * w - c) <= 4real * part(n),
        size(n - (a + b + c)) <= 3real * part(n),
        size(x) <= 14real * square && size(y) <= 14real * square && size(z) <= 14real * square,
        square > 0real,
    ensures
        size(n * ((1real - v - w) * x + v * y + w * z) - (a * x + b * y + c * z)) <= 270real * part(
            n * square,
        ),
{
    let most = 14real * square;
    let (nv, nw) = (n * v, n * w);
    let (i, j, k) = ((n - nv - nw) - a, nv - b, nw - c);
    assert(size(i) <= 11real * part(n));
    lemma_product_size(i, x, 11real * part(n), most);
    lemma_product_size(j, y, 4real * part(n), most);
    lemma_product_size(k, z, 4real * part(n), most);
    let area = n * square;
    assert((11real * part(n)) * most == 154real * part(area)) by (nonlinear_arith)
        requires
            most == 14real * square,
            area == n * square,
    ;
    assert((4real * part(n)) * most == 56real * part(area)) by (nonlinear_arith)
        requires
            most == 14real * square,
            area == n * square,
    ;
    assert(n * ((1real - v - w) * x) == (n - nv - nw) * x) by (nonlinear_arith)
        requires
            nv == n * v,
            nw == n * w,
    ;
    assert(n * (v * y) == nv * y) by (nonlinear_arith)
        requires
            nv == n * v,
    ;
    assert(n * (w * z) == nw * z) by (nonlinear_arith)
        requires
            nw == n * w,
    ;
    let (p, q, r) = ((1real - v - w) * x, v * y, w * z);
    assert(n * (p + q + r) == n * p + n * q + n * r) by (nonlinear_arith);
    lemma_times_pair(n - nv - nw, a, x);
    lemma_times_pair(nv, b, y);
    lemma_times_pair(nw, c, z);
    lemma_sizes_add(i * x, j * y);
    lemma_sizes_add(i * x + j * y, k * z);
}

/// The sum of weights that are not negative.
#[verifier::rlimit(50)]
proof fn lemma_weight_sum(a: Binary32, b: Binary32, c: Binary32, most: real)
    requires
        a.is_finite() && b.is_finite() && c.is_finite(),
        0real <= value(a) <= most && 0real <= value(b) <= most && 0real <= value(c) <= most,
        most <= 1267650600228229401496703205376real / 4real,
    ensures
        ({
            let n = a.plus(b).plus(c);
            &&& n.is_finite()
            &&& value(n) <= 4real * most
            &&& size(value(n) - (value(a) + value(b) + value(c))) <= 3real * part(value(n))
            &&& value(b) <= value(n) + 4real * part(value(n))
            &&& value(c) <= value(n) + 4real * part(value(n))
        }),
{
    law_value_of_sum(a, b);
    law_value_of_sum(a.plus(b), c);
}

/// A bound that is divided by the sum of the weights.
proof fn lemma_over_sum(n: real, e: real, square: real, slimness: real)
    requires
        n > 0real,
        square > 0real,
        1real <= slimness,
        slimness * n >= square * square,
        size(n * e) <= 270real * part(n * square) + 50400real * part((square * square) * square),
    ensures
        size(e) <= 50700real * (slimness * part(square)),
{
    let k = slimness * square;
    let cube = (square * square) * square;
    assert(cube <= n * k) by (nonlinear_arith)
        requires
            slimness * n >= square * square,
            k == slimness * square,
            cube == (square * square) * square,
            square > 0real,
    ;
    assert(n * square <= n * k) by (nonlinear_arith)
        requires
            k == slimness * square,
            slimness >= 1real,
            square > 0real,
            n > 0real,
    ;
    assert(slimness * part(square) == part(k)) by (nonlinear_arith)
        requires
            k == slimness * square,
    ;
    assert(size(n * e) <= 50670real * part(n * k));
    let m = 50670real * part(k);
    assert(50670real * part(n * k) == n * m) by (nonlinear_arith)
        requires
            m == 50670real * part(k),
    ;
    assert(-m <= e <= m) by (nonlinear_arith)
        requires
            -(n * m) <= n * e <= n * m,
            n > 0real,
    ;
    assert(k > 0real) by (nonlinear_arith)
        requires
            k == slimness * square,
            slimness >= 1real,
            square > 0real,
    ;
}

/// Weights that are off, times projections.
#[verifier::rlimit(50)]
proof fn lemma_weights_off(
    a: real,
    b: real,
    c: real,
    i: real,
    j: real,
    k: real,
    x: real,
    y: real,
    z: real,
    square: real,
)
    requires
        size(a - i) <= 1200real * part(square * square),
        size(b - j) <= 1200real * part(square * square),
        size(c - k) <= 1200real * part(square * square),
        size(x) <= 14real * square && size(y) <= 14real * square && size(z) <= 14real * square,
        i * x + j * y + k * z == 0real,
    ensures
        size(a * x + b * y + c * z) <= 50400real * part((square * square) * square),
{
    let (off, most) = (1200real * part(square * square), 14real * square);
    lemma_product_size(a - i, x, off, most);
    lemma_product_size(b - j, y, off, most);
    lemma_product_size(c - k, z, off, most);
    let cube = (square * square) * square;
    assert(off * most == 16800real * part(cube)) by (nonlinear_arith)
        requires
            off == 1200real * part(square * square),
            most == 14real * square,
            cube == (square * square) * square,
    ;
    lemma_times_pair(a, i, x);
    lemma_times_pair(b, j, y);
    lemma_times_pair(c, k, z);
    lemma_sizes_add((a - i) * x, (b - j) * y);
    lemma_sizes_add((a - i) * x + (b - j) * y, (c - k) * z);
}

/// A combination of projections that are off.
#[verifier::rlimit(50)]
proof fn lemma_projections_off(
    v: real,
    w: real,
    x: real,
    y: real,
    z: real,
    i: real,
    j: real,
    k: real,
    error: real,
)
    requires
        -(1real / 1000real) <= v <= 1001real / 1000real,
        -(1real / 1000real) <= w <= 1001real / 1000real,
        -(1real / 1000real) <= 1real - v - w <= 1001real / 1000real,
        size(x - i) <= error && size(y - j) <= error && size(z - k) <= error,
    ensures
        size(
            ((1real - v - w) * x + v * y + w * z) - ((1real - v - w) * i + v * j + w * k),
        ) <= 4real * error,
{
    let u = 1real - v - w;
    let one = 1001real / 1000real;
    lemma_product_size(x - i, u, error, one);
    lemma_product_size(y - j, v, error, one);
    lemma_product_size(z - k, w, error, one);
    assert(error * one <= 4real * error / 3real) by (nonlinear_arith)
        requires
            one == 1001real / 1000real,
            error >= 0real,
    ;
    assert((x - i) * u == u * x - u * i) by (nonlinear_arith);
    assert((y - j) * v == v * y - v * j) by (nonlinear_arith);
    assert((z - k) * w == w * z - w * k) by (nonlinear_arith);
    lemma_sizes_add((x - i) * u, (y - j) * v);
    lemma_sizes_add((x - i) * u + (y - j) * v, (z - k) * w);
}

/// A share is that of a point of the triangle, but for rounding.
proof fn lemma_share_range(n: real, v: real, weight: real)
    requires
        n > 0real,
        size(n * v - weight) <= 16real * part(n),
        -(16real * part(n)) <= weight <= n + 16real * part(n),
    ensures
        -(1real / 1000real) <= v <= 1001real / 1000real,
{
    assert(-(1real / 1000real) <= v <= 1001real / 1000real) by (nonlinear_arith)
        requires
            n > 0real,
            -(32real * part(n)) <= n * v <= n + 32real * part(n),
    ;
}

/// How the way from a foot inside a triangle turns against the edges.
#[verifier::rlimit(50)]
proof fn lemma_inside_turns(
    r: Projections,
    x: RealProjections,
    v: real,
    w: real,
    square: real,
    slimness: real,
)
    requires
        close(r, x, square),
        1real / 1048576real <= square <= 1099511627776real,
        well_inside(r, square, slimness),
        v == value(r.vb().times(Binary32::of(ONE).over(weight_sum(r)))),
        w == value(r.vc().times(Binary32::of(ONE).over(weight_sum(r)))),
    ensures
        r.vb().times(Binary32::of(ONE).over(weight_sum(r))).is_finite(),
        r.vc().times(Binary32::of(ONE).over(weight_sum(r))).is_finite(),
        -(1real / 1000real) <= v <= 1001real / 1000real,
        -(1real / 1000real) <= w <= 1001real / 1000real,
        size((1real - v - w) * x.d1 + v * x.d3 + w * x.d5) <= 51200real * (slimness * part(square)),
        size((1real - v - w) * x.d2 + v * x.d4 + w * x.d6) <= 51200real * (slimness * part(square)),
{
    let area = square * square;
    assert(1real / 1099511627776real <= area <= 1208925819614629174706176real)
        by (nonlinear_arith)
        requires
            area == square * square,
            1real / 1048576real <= square <= 1099511627776real,
    ;
    let (d1, d2, d3) = (value(r.d1), value(r.d2), value(r.d3));
    let (d4, d5, d6) = (value(r.d4), value(r.d5), value(r.d6));
    lemma_weight_near(r.d1, r.d4, r.d3, r.d2, square);
    lemma_weight_near(r.d5, r.d2, r.d1, r.d6, square);
    lemma_weight_near(r.d3, r.d6, r.d5, r.d4, square);
    let (a, b, c) = (value(r.va()), value(r.vb()), value(r.vc()));
    let (i, j, k) = (d3 * d6 - d5 * d4, d5 * d2 - d1 * d6, d1 * d4 - d3 * d2);
    lemma_weight_sum(r.va(), r.vb(), r.vc(), 400real * area);
    let n = value(weight_sum(r));
    assert(n >= 1real / 1267650600228229401496703205376real) by (nonlinear_arith)
        requires
            slimness * n >= area,
            area >= 1real / 1099511627776real,
            1real <= slimness <= 1000000real,
    ;
    lemma_share(r.vb(), weight_sum(r));
    lemma_share(r.vc(), weight_sum(r));
    lemma_share_range(n, v, b);
    lemma_share_range(n, w, c);
    let u = 1real - v - w;
    assert(n * u == n - n * v - n * w) by (nonlinear_arith)
        requires
            u == 1real - v - w,
    ;
    lemma_share_range(n, u, a);
    lemma_weights_cancel(d1, d2, d3, d4, d5, d6);
    lemma_weights_off(a, b, c, i, j, k, d1, d3, d5, square);
    lemma_weights_off(a, b, c, i, j, k, d2, d4, d6, square);
    lemma_combination(n, v, w, a, b, c, d1, d3, d5, square);
    lemma_combination(n, v, w, a, b, c, d2, d4, d6, square);
    let e = u * d1 + v * d3 + w * d5;
    let f = u * d2 + v * d4 + w * d6;
    lemma_sizes_add(n * e - (a * d1 + b * d3 + c * d5), a * d1 + b * d3 + c * d5);
    lemma_sizes_add(n * f - (a * d2 + b * d4 + c * d6), a * d2 + b * d4 + c * d6);
    lemma_over_sum(n, e, square, slimness);
    lemma_over_sum(n, f, square, slimness);
    let error = 96real * part(square);
    lemma_projections_off(v, w, d1, d3, d5, x.d1, x.d3, x.d5, error);
    lemma_projections_off(v, w, d2, d4, d6, x.d2, x.d4, x.d6, error);
    let (g, h) = (u * x.d1 + v * x.d3 + w * x.d5, u * x.d2 + v * x.d4 + w * x.d6);
    lemma_sizes_add(e, e - g);
    lemma_sizes_add(f, f - h);
    assert(part(square) <= slimness * part(square)) by (nonlinear_arith)
        requires
            slimness >= 1real,
            square > 0real,
    ;
}

/// The exact way to a point from the one that lies shares of two edges away from
/// the first corner.
pub open spec fn way_from_shares(point: Vec3, t: Triangle, v: real, w: real) -> Three {
    exact_way(point, t.a).minus(exact_way(t.b, t.a).scaled(v)).minus(
        exact_way(t.c, t.a).scaled(w),
    )
}

/// No point of a triangle is nearer than a foot from which the way to a point
/// hardly turns against the edges.
#[verifier::rlimit(50)]
proof fn lemma_foot_is_nearest(
    point: Vec3,
    t: Triangle,
    v: real,
    w: real,
    i: real,
    j: real,
    k: real,
    error: real,
)
    requires
        are_weights(i, j, k),
        -(1real / 1000real) <= v <= 1001real / 1000real,
        -(1real / 1000real) <= w <= 1001real / 1000real,
        ({
            let x = RealProjections::of(point, t);
            &&& size((1real - v - w) * x.d1 + v * x.d3 + w * x.d5) <= error
            &&& size((1real - v - w) * x.d2 + v * x.d4 + w * x.d6) <= error
        }),
    ensures
        ({
            let way = way_from_shares(point, t, v, w);
            let other = way_from_weights(point, t, i, j, k);
            other.dot(other) >= way.dot(way) - 5real * error
        }),
{
    let x = RealProjections::of(point, t);
    lemma_real_projections(point, t);
    let (ab, ac) = (exact_way(t.b, t.a), exact_way(t.c, t.a));
    let (p, q, r) = (exact_way(point, t.a), exact_way(point, t.b), exact_way(point, t.c));
    let one = p.minus(ab.scaled(v));
    let way = one.minus(ac.scaled(w));
    lemma_dot_of_difference(p, ab.scaled(v), ab);
    lemma_dot_of_difference(p, ab.scaled(v), ac);
    lemma_dot_of_difference(one, ac.scaled(w), ab);
    lemma_dot_of_difference(one, ac.scaled(w), ac);
    lemma_scaled_dots(v, ab, ab);
    lemma_scaled_dots(v, ab, ac);
    lemma_scaled_dots(w, ac, ab);
    lemma_scaled_dots(w, ac, ac);
    lemma_dot_turned(ab, ac);
    lemma_dot_turned(p, ab);
    lemma_dot_turned(p, ac);
    let (m, n) = (way.dot(ab), way.dot(ac));
    assert(m == x.d1 - v * (x.d1 - x.d3) - w * (x.d1 - x.d5));
    assert(n == x.d2 - v * (x.d2 - x.d4) - w * (x.d2 - x.d6));
    lemma_shared(x.d1, x.d3, x.d5, v, w);
    lemma_shared(x.d2, x.d4, x.d6, v, w);
    assert(size(m) <= error && size(n) <= error);
    lemma_dot_of_difference(p, ab.scaled(v), way);
    lemma_dot_of_difference(one, ac.scaled(w), way);
    lemma_scaled_dots(v, ab, way);
    lemma_scaled_dots(w, ac, way);
    assert(way.dot(p) == way.dot(way) + v * m + w * n);
    assert(q == p.minus(ab));
    assert(r == p.minus(ac));
    lemma_dot_of_difference(p, ab, way);
    lemma_dot_of_difference(p, ac, way);
    let wide = 1001real / 1000real;
    lemma_product_size(v, m, wide, error);
    lemma_product_size(w, n, wide, error);
    lemma_product_size(v - 1real, m, wide, error);
    lemma_product_size(w - 1real, n, wide, error);
    assert(wide * error <= 5real * error / 4real) by (nonlinear_arith)
        requires
            wide == 1001real / 1000real,
            error >= 0real,
    ;
    lemma_times_pair(v, 1real, m);
    lemma_times_pair(w, 1real, n);
    assert(1real * m == m && 1real * n == n);
    lemma_no_nearer(way, p, q, r, i, j, k, 5real * error / 2real);
}

proof fn lemma_shared(a: real, b: real, c: real, v: real, w: real)
    ensures
        a - v * (a - b) - w * (a - c) == (1real - v - w) * a + v * b + w * c,
{
    assert(v * (a - b) == v * a - v * b) by (nonlinear_arith);
    assert(w * (a - c) == w * a - w * c) by (nonlinear_arith);
    assert((1real - v - w) * a == a - v * a - w * a) by (nonlinear_arith);
}

/// A coordinate of the way to a foot inside a triangle.
#[verifier::rlimit(50)]
proof fn lemma_foot_coordinate(
    corner: Binary32,
    ab: Binary32,
    ac: Binary32,
    point: Binary32,
    y: Binary32,
    z: Binary32,
    e: real,
    g: real,
    bound: real,
)
    requires
        moderate(bound),
        corner.is_finite() && point.is_finite(),
        size(value(corner)) <= bound && size(value(point)) <= bound,
        near(ab, e, 2real * part(bound)),
        near(ac, g, 2real * part(bound)),
        size(e) <= 2real * bound,
        size(g) <= 2real * bound,
        y.is_finite() && z.is_finite(),
        -(1real / 1000real) <= value(y) <= 1001real / 1000real,
        -(1real / 1000real) <= value(z) <= 1001real / 1000real,
    ensures
        near(
            corner.plus(ab.times(y)).plus(ac.times(z)).minus(point),
            value(corner) + e * value(y) + g * value(z) - value(point),
            24real * part(bound),
        ),
        size(value(corner) + e * value(y) + g * value(z) - value(point)) <= 61real * bound / 10real,
{
    lemma_edge_product(ab, y, e, bound);
    lemma_edge_product(ac, z, g, bound);
    let (c, p) = (value(corner), value(point));
    let (i, j) = (e * value(y), g * value(z));
    let off = 43real * part(bound) / 10real;
    let one = corner.plus(ab.times(y));
    let two = one.plus(ac.times(z));
    lemma_rounded_sum(corner, ab.times(y), c, i, 0real, off, 31real * bound / 10real);
    lemma_sizes_add(c, i);
    lemma_rounded_sum(
        one,
        ac.times(z),
        c + i,
        j,
        74real * part(bound) / 10real,
        off,
        51real * bound / 10real,
    );
    lemma_sizes_add(c + i, j);
    lemma_rounded_sum(
        two,
        point,
        c + i + j,
        p,
        168real * part(bound) / 10real,
        0real,
        61real * bound / 10real,
    );
    lemma_sizes_add(c + i + j, p);
}

/// The square of a coordinate that is off by a little.
proof fn lemma_foot_square(x: real, r: real, bound: real, square: real)
    requires
        size(x - r) <= 24real * part(bound),
        size(r) <= 61real * bound / 10real,
        bound > 0real,
        square == bound * bound,
    ensures
        size(x * x - r * r) <= 296real * part(square),
        0real <= x * x <= 38real * square,
{
    lemma_within(r, x, 61real * bound / 10real, 24real * part(bound));
    let (off, sum) = (x - r, x + r);
    lemma_sizes_add(x, r);
    let wide = 123real * bound / 10real;
    lemma_product_size(off, sum, 24real * part(bound), wide);
    assert((24real * part(bound)) * wide == 2952real * part(square) / 10real) by (nonlinear_arith)
        requires
            wide == 123real * bound / 10real,
            square == bound * bound,
    ;
    assert(off * sum == x * x - r * r) by (nonlinear_arith)
        requires
            off == x - r,
            sum == x + r,
    ;
    let most = 611real * bound / 100real;
    lemma_product_size(x, x, most, most);
    assert(most * most == 373321real * square / 10000real) by (nonlinear_arith)
        requires
            most == 611real * bound / 100real,
            square == bound * bound,
    ;
    assert(x * x >= 0real) by (nonlinear_arith);
}

/// The squared length of the way to a foot inside a triangle.
#[verifier::rlimit(50)]
proof fn lemma_foot_measured(
    point: Vec3,
    t: Triangle,
    y: Binary32,
    z: Binary32,
    bound: real,
    square: real,
)
    requires
        point_within(point, bound),
        triangle_within(t, bound),
        moderate(bound),
        square == bound * bound,
        y.is_finite() && z.is_finite(),
        -(1real / 1000real) <= value(y) <= 1001real / 1000real,
        -(1real / 1000real) <= value(z) <= 1001real / 1000real,
    ensures
        ({
            let off = t.a.plus(t.b.minus(t.a).scaled(y)).plus(t.c.minus(t.a).scaled(z)).minus(
                point,
            );
            let way = way_from_shares(point, t, value(y), value(z));
            near(off.length_squared(), way.dot(way), 1500real * part(square))
        }),
{
    lemma_moderate(bound, square);
    lemma_way(t.b, t.a, bound);
    lemma_way(t.c, t.a, bound);
    let (e, g) = (exact_way(t.b, t.a), exact_way(t.c, t.a));
    let (ab, ac) = (t.b.minus(t.a), t.c.minus(t.a));
    let (v, w) = (value(y), value(z));
    lemma_foot_coordinate(t.a.x, ab.x, ac.x, point.x, y, z, e.x, g.x, bound);
    lemma_foot_coordinate(t.a.y, ab.y, ac.y, point.y, y, z, e.y, g.y, bound);
    lemma_foot_coordinate(t.a.z, ab.z, ac.z, point.z, y, z, e.z, g.z, bound);
    assert(e.x * v == v * e.x && e.y * v == v * e.y && e.z * v == v * e.z) by (nonlinear_arith);
    assert(g.x * w == w * g.x && g.y * w == w * g.y && g.z * w == w * g.z) by (nonlinear_arith);
    let off = t.a.plus(ab.scaled(y)).plus(ac.scaled(z)).minus(point);
    let way = way_from_shares(point, t, v, w);
    lemma_foot_square(value(off.x), -way.x, bound, square);
    lemma_foot_square(value(off.y), -way.y, bound, square);
    lemma_foot_square(value(off.z), -way.z, bound, square);
    lemma_turned_square(way.x);
    lemma_turned_square(way.y);
    lemma_turned_square(way.z);
    assert(dot_sizes(off, off) == exact_dot(off, off));
    law_value_of_dot(off, off);
    lemma_sizes_add(
        value(off.length_squared()) - exact_dot(off, off),
        exact_dot(off, off) - way.dot(way),
    );
}

proof fn lemma_turned_square(x: real)
    ensures
        (-x) * (-x) == x * x,
{
    assert((-x) * (-x) == x * x) by (nonlinear_arith);
}

/// Whether a measured square of a distance is that to a point that lies shares of
/// the two edges away from the first corner, up to an error.
pub open spec fn measured_inside(
    measured: Binary32,
    point: Vec3,
    t: Triangle,
    v: real,
    w: real,
    error: real,
) -> bool {
    let way = way_from_shares(point, t, v, w);
    &&& -(1real / 1000real) <= v <= 1001real / 1000real
    &&& -(1real / 1000real) <= w <= 1001real / 1000real
    &&& near(measured, way.dot(way), error)
}

/// Where the inside of a triangle is told to be nearest, and no weight of a corner
/// comes out negative, the distance to a point given by shares of its edges is
/// measured, and no point of the triangle is nearer, up to rounding and to how
/// slim the triangle is. Coordinates may be as great as two to the twentieth.
#[verifier::rlimit(50)]
pub proof fn law_nearest_inside_is_nearest(
    point: Vec3,
    t: Triangle,
    i: real,
    j: real,
    k: real,
    bound: real,
    slimness: real,
)
    requires
        Projections::of(point, t).feature() is Inside,
        well_inside(Projections::of(point, t), bound * bound, slimness),
        point_within(point, bound),
        triangle_within(t, bound),
        1real / 1024real <= bound <= 1048576real,
        are_weights(i, j, k),
    ensures
        ({
            let measured = nearest_offset(point, t).length_squared();
            let way = way_from_weights(point, t, i, j, k);
            &&& measured.is_finite()
            &&& value(measured) <= way.dot(way) + 262144real * (slimness * part(bound * bound))
            &&& exists|v: real, w: real| #[trigger]
                measured_inside(measured, point, t, v, w, 1500real * part(bound * bound))
        }),
{
    let square = bound * bound;
    lemma_moderate(bound, square);
    assert(square <= 1099511627776real) by (nonlinear_arith)
        requires
            square == bound * bound,
            0real < bound <= 1048576real,
    ;
    lemma_projections_are_close(point, t, bound, square);
    let (r, x) = (Projections::of(point, t), RealProjections::of(point, t));
    let share = Binary32::of(ONE).over(weight_sum(r));
    let (y, z) = (r.vb().times(share), r.vc().times(share));
    lemma_inside_turns(r, x, value(y), value(z), square, slimness);
    let error = 51200real * (slimness * part(square));
    lemma_foot_is_nearest(point, t, value(y), value(z), i, j, k, error);
    lemma_foot_measured(point, t, y, z, bound, square);
    assert(part(square) <= slimness * part(square)) by (nonlinear_arith)
        requires
            slimness >= 1real,
            square > 0real,
    ;
    assert(measured_inside(
        nearest_offset(point, t).length_squared(),
        point,
        t,
        value(y),
        value(z),
        1500real * part(bound * bound),
    ));
}

} // verus!
