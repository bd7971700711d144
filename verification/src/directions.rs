//! Unit vectors, and how closely computed ones are of length one.
use crate::binary32::{Binary32, ONE};
use crate::bounds::bounded_point;
use crate::sampling::law_squared_length_is_not_negative;
use crate::value::{
    large, law_value_of_product, law_value_of_quotient, law_value_of_root, law_value_of_sum,
    law_values_of_constants, lemma_bounded_value, lemma_one_in_units, lemma_value_of_sign, near,
    part, size, unit, value,
};
use crate::vector::Vec3;
use vstd::arithmetic::power2::{lemma2_to64, lemma2_to64_rest, pow2};
use vstd::prelude::*;

verus! {

/// The exact product of two vectors.
pub open spec fn exact_dot(a: Vec3, b: Vec3) -> real {
    value(a.x) * value(b.x) + value(a.y) * value(b.y) + value(a.z) * value(b.z)
}

/// The sizes of the products that a product of vectors is the sum of.
pub open spec fn dot_sizes(a: Vec3, b: Vec3) -> real {
    size(value(a.x) * value(b.x)) + size(value(a.y) * value(b.y)) + size(
        value(a.z) * value(b.z),
    )
}

/// Whether a vector has a length of one, but for one part in two to the
/// nineteenth of its square.
pub open spec fn nearly_unit(v: Vec3) -> bool {
    bounded_point(v, 150) && size(exact_dot(v, v) - 1real) <= 1real / 524288real
}

/// A rounded sum of two terms that are off themselves.
pub(crate) proof fn lemma_sum_of_rounded(p: real, q: real, a: real, b: real, s: real, d: real, e: real)
    requires
        size(a - p) <= d,
        size(b - q) <= e,
        size(s - (a + b)) <= part(size(a + b)),
    ensures
        size(s - (p + q)) <= d + e + part(size(p) + size(q) + d + e),
{
    assert(size(a + b) <= size(p) + size(q) + d + e);
}

/// A sum of three products.
pub(crate) proof fn lemma_three_products(
    a: Binary32,
    b: Binary32,
    c: Binary32,
    d: Binary32,
    e: Binary32,
    f: Binary32,
)
    requires
        a.is_finite() && b.is_finite() && c.is_finite(),
        d.is_finite() && e.is_finite() && f.is_finite(),
        size(value(a) * value(b)) + size(value(c) * value(d)) + size(value(e) * value(f))
            <= large() / 4real,
    ensures
        near(
            a.times(b).plus(c.times(d)).plus(e.times(f)),
            value(a) * value(b) + value(c) * value(d) + value(e) * value(f),
            5real * part(
                size(value(a) * value(b)) + size(value(c) * value(d)) + size(value(e) * value(f)),
            ) + 4real * unit(),
        ),
{
    lemma_one_in_units();
    lemma_sum_of_two_products(a, b, c, d);
    law_value_of_product(e, f);
    let (p, q, r) = (value(a) * value(b), value(c) * value(d), value(e) * value(f));
    let (i, j, k) = (size(p), size(q), size(r));
    let sum = a.times(b).plus(c.times(d));
    let (s, z) = (value(sum), value(e.times(f)));
    let (m, n) = (3real * part(i + j) + 3real * unit(), part(k) + unit() / 2real);
    lemma_within(p + q, s, i + j, m);
    lemma_within(r, z, k, n);
    lemma_sizes_add(s, z);
    law_value_of_sum(sum, e.times(f));
    lemma_sum_of_rounded(p + q, r, s, z, value(sum.plus(e.times(f))), m, n);
    lemma_sizes_add(p, q);
    assert(m + n + part(size(p + q) + k + m + n) <= 5real * part(i + j + k) + 4real * unit());
}

pub(crate) proof fn lemma_sizes_add(p: real, q: real)
    ensures
        size(p + q) <= size(p) + size(q),
        size(p - q) <= size(p) + size(q),
        size(p) >= 0real,
{
}

pub(crate) proof fn lemma_within(p: real, x: real, bound: real, error: real)
    requires
        size(p) <= bound,
        size(x - p) <= error,
    ensures
        size(x) <= bound + error,
{
}

/// A sum of two products.
proof fn lemma_sum_of_two_products(a: Binary32, b: Binary32, c: Binary32, d: Binary32)
    requires
        a.is_finite() && b.is_finite() && c.is_finite() && d.is_finite(),
        size(value(a) * value(b)) + size(value(c) * value(d)) <= large() / 4real,
    ensures
        near(
            a.times(b).plus(c.times(d)),
            value(a) * value(b) + value(c) * value(d),
            3real * part(size(value(a) * value(b)) + size(value(c) * value(d))) + 3real * unit(),
        ),
        size(value(a) * value(b) + value(c) * value(d)) <= size(value(a) * value(b)) + size(
            value(c) * value(d),
        ),
{
    lemma_one_in_units();
    law_value_of_product(a, b);
    law_value_of_product(c, d);
    law_value_of_sum(a.times(b), c.times(d));
}

/// A difference of two products.
pub(crate) proof fn lemma_two_products(a: Binary32, b: Binary32, c: Binary32, d: Binary32)
    requires
        a.is_finite() && b.is_finite() && c.is_finite() && d.is_finite(),
        size(value(a) * value(b)) + size(value(c) * value(d)) <= large() / 4real,
    ensures
        near(
            a.times(b).minus(c.times(d)),
            value(a) * value(b) - value(c) * value(d),
            3real * part(size(value(a) * value(b)) + size(value(c) * value(d))) + 3real * unit(),
        ),
{
    lemma_one_in_units();
    law_value_of_product(a, b);
    law_value_of_product(c, d);
    law_value_of_sum(a.times(b), c.times(d));
}

/// The rounded product of two vectors.
pub proof fn law_value_of_dot(a: Vec3, b: Vec3)
    requires
        a.x.is_finite() && a.y.is_finite() && a.z.is_finite(),
        b.x.is_finite() && b.y.is_finite() && b.z.is_finite(),
        dot_sizes(a, b) <= large() / 4real,
    ensures
        near(
            a.dot(b),
            exact_dot(a, b),
            5real * part(dot_sizes(a, b)) + 4real * unit(),
        ),
{
    lemma_three_products(a.x, b.x, a.y, b.y, a.z, b.z);
}

pub(crate) proof fn lemma_square_size(x: real, bound: real)
    requires
        size(x) <= bound,
    ensures
        0real <= x * x <= bound * bound,
        size(x * x) == x * x,
{
    assert(x * x >= 0real) by (nonlinear_arith);
    assert(x * x <= bound * bound) by (nonlinear_arith)
        requires
            -bound <= x <= bound,
    ;
}

/// One divided by a root, times that root.
pub(crate) proof fn lemma_share_of_root(q: real, r: real, tiny: real)
    requires
        r > 0real,
        size(q - 1real / r) <= part(1real / r) + tiny,
        0real <= tiny,
        tiny * r <= part(1real),
    ensures
        size(q * r - 1real) <= 2real * part(1real),
{
    let i = 1real / r;
    assert(i * r == 1real) by (nonlinear_arith)
        requires
            i == 1real / r,
            r > 0real,
    ;
    let e = part(1real);
    assert(q * r - 1real <= 2real * e) by (nonlinear_arith)
        requires
            q - i <= part(i) + tiny,
            i * r == 1real,
            r > 0real,
            tiny * r <= e,
            e == 1real / 16777216real,
            part(i) == i / 16777216real,
    ;
    assert(q * r - 1real >= -(2real * e)) by (nonlinear_arith)
        requires
            q - i >= -(part(i) + tiny),
            i * r == 1real,
            r > 0real,
            tiny * r <= e,
            e == 1real / 16777216real,
            part(i) == i / 16777216real,
    ;
}

/// The square of a number close to one.
proof fn lemma_square_near_one(t: real)
    requires
        size(t - 1real) <= 2real * part(1real),
    ensures
        size(t * t - 1real) <= 5real * part(1real),
        t > 0real,
{
    let d = t - 1real;
    assert(t * t == 1real + 2real * d + d * d) by (nonlinear_arith)
        requires
            t == 1real + d,
    ;
    lemma_square_size(d, 1real / 8388608real);
}

/// How a factor that makes a root one fits the length itself.
pub(crate) proof fn lemma_factor(q: real, r: real, s: real, length: real)
    requires
        size(q * r - 1real) <= 2real * part(1real),
        size(r * r - s) <= 3real * part(s),
        size(s - length) <= 6real * part(length),
        length > 0real,
    ensures
        size(q * q * length - 1real) <= 16real * part(1real),
{
    let t = q * r;
    lemma_square_near_one(t);
    let g = q * q;
    let rr = r * r;
    assert(t * t == g * rr) by (nonlinear_arith)
        requires
            t == q * r,
            g == q * q,
            rr == r * r,
    ;
    assert(g >= 0real) by (nonlinear_arith)
        requires
            g == q * q,
    ;
    assert(size(rr - length) <= 10real * part(length));
    let gap = rr - length;
    let most = 10real * part(length);
    assert(g * gap <= g * most) by (nonlinear_arith)
        requires
            g >= 0real,
            gap <= most,
    ;
    assert(g * gap >= -(g * most)) by (nonlinear_arith)
        requires
            g >= 0real,
            gap >= -most,
    ;
    assert(g * gap == g * rr - g * length) by (nonlinear_arith)
        requires
            gap == rr - length,
    ;
    assert(g * most == 10real * part(g * length)) by (nonlinear_arith)
        requires
            most == 10real * (length / 16777216real),
            part(g * length) == (g * length) / 16777216real,
    ;
    let a = g * length;
    assert(a >= 0real) by (nonlinear_arith)
        requires
            a == g * length,
            g >= 0real,
            length > 0real,
    ;
    assert(size(g * rr - a) <= 10real * part(a));
}

/// The square of a rounded product.
proof fn lemma_square_of_rounded(w: real, y: real)
    requires
        size(y) <= 2real,
        size(w - y) <= part(size(y)) + unit(),
    ensures
        size(w * w - y * y) <= 3real * part(y * y) + 8real * unit(),
        size(w) <= 3real,
{
    lemma_one_in_units();
    let d = w - y;
    let (p, s) = (size(y), size(d));
    let u = unit();
    assert(w * w - y * y == 2real * (d * y) + d * d) by (nonlinear_arith)
        requires
            w == y + d,
    ;
    lemma_size_of_product(d, y);
    lemma_size_of_product(d, d);
    lemma_size_of_product(y, y);
    lemma_square_size(y, p);
    lemma_square_size(d, s);
    let c = p / 16777216real + u;
    assert(s * p <= c * p) by (nonlinear_arith)
        requires
            s <= c,
            p >= 0real,
    ;
    assert(c * p == (p * p) / 16777216real + u * p) by (nonlinear_arith)
        requires
            c == p / 16777216real + u,
    ;
    assert(u * p <= 2real * u) by (nonlinear_arith)
        requires
            0real <= p <= 2real,
            u > 0real,
    ;
    // The square of the error is far smaller than the error.
    assert(s <= 1real / 4000000real);
    assert(s * s <= s / 4000000real) by (nonlinear_arith)
        requires
            0real <= s <= 1real / 4000000real,
    ;
    assert(s * s <= c * c) by (nonlinear_arith)
        requires
            0real <= s <= c,
    ;
    assert(c * c == (c * p) / 16777216real + u * c) by (nonlinear_arith)
        requires
            c == p / 16777216real + u,
    ;
    assert(u * c <= u) by (nonlinear_arith)
        requires
            c <= 1real,
            u > 0real,
    ;
}

pub(crate) proof fn lemma_size_of_product(x: real, y: real)
    ensures
        size(x * y) == size(x) * size(y),
{
    assert(size(x * y) == size(x) * size(y)) by (nonlinear_arith);
}

/// A vector that is long enough is made one of nearly unit length, by one factor
/// for all coordinates.
pub(crate) proof fn lemma_normalize(v: Vec3) -> (q: real)
    requires
        bounded_point(v, 209),
        v.length_squared().is_finite() ==> value(v.length_squared()) >= 1real / 1099511627776real,
    ensures
        v.length_squared().is_finite(),
        q > 0real,
        size(q * q * exact_dot(v, v) - 1real) <= 16real * part(1real),
        ({
            let w = v.normalize();
            &&& size(value(w.x) - q * value(v.x)) <= part(size(q * value(v.x))) + unit()
            &&& size(value(w.y) - q * value(v.y)) <= part(size(q * value(v.y))) + unit()
            &&& size(value(w.z) - q * value(v.z)) <= part(size(q * value(v.z))) + unit()
        }),
        nearly_unit(v.normalize()),
{
    lemma_one_in_units();
    lemma2_to64();
    lemma2_to64_rest();
    law_values_of_constants();
    let big = 1152921504606846976real;
    assert(pow2(60) == 1152921504606846976);
    lemma_bounded_value(v.x, 60);
    lemma_bounded_value(v.y, 60);
    lemma_bounded_value(v.z, 60);
    lemma_square_size(value(v.x), big);
    lemma_square_size(value(v.y), big);
    lemma_square_size(value(v.z), big);
    let length = exact_dot(v, v);
    law_value_of_dot(v, v);
    let s = v.length_squared();
    assert(size(value(s) - length) <= 6real * part(length));
    law_value_of_root(s);
    let root = s.root();
    let r = value(root);
    assert(r * r <= 4real * big * big);
    assert(r <= 4real * big) by (nonlinear_arith)
        requires
            r * r <= 4real * big * big,
            big == 1152921504606846976real,
            r >= 0real,
    ;
    assert(r >= 1real / 2097152real) by (nonlinear_arith)
        requires
            r * r >= 1real / 4398046511104real,
            r >= 0real,
    ;
    assert(1real / r <= 2097152real) by (nonlinear_arith)
        requires
            r >= 1real / 2097152real,
    ;
    assert(1real / r > 0real) by (nonlinear_arith)
        requires
            r >= 1real / 2097152real,
    ;
    let factor = Binary32::of(ONE).over(root);
    law_value_of_quotient(Binary32::of(ONE), root);
    let q = value(factor);
    let tiny = unit() / 2real;
    assert(tiny * r <= part(1real)) by (nonlinear_arith)
        requires
            tiny <= 1real / 1000000000000000000000000000000000000000000real,
            0real <= r <= 4real * big,
            big == 1152921504606846976real,
            part(1real) == 1real / 16777216real,
            tiny >= 0real,
    ;
    lemma_share_of_root(q, r, tiny);
    lemma_factor(q, r, value(s), length);
    assert(q > 0real) by (nonlinear_arith)
        requires
            q * r >= 1real / 2real,
            r > 0real,
    ;
    let (x, y, z) = (q * value(v.x), q * value(v.y), q * value(v.z));
    lemma_scaled_square(q, value(v.x));
    lemma_scaled_square(q, value(v.y));
    lemma_scaled_square(q, value(v.z));
    let (a, b, c) = (
        value(v.x) * value(v.x),
        value(v.y) * value(v.y),
        value(v.z) * value(v.z),
    );
    let g = q * q;
    assert(g * (a + b + c) == g * a + g * b + g * c) by (nonlinear_arith);
    assert(x * x + y * y + z * z == g * length);
    lemma_root_of_two(x);
    lemma_root_of_two(y);
    lemma_root_of_two(z);
    law_value_of_product(v.x, factor);
    law_value_of_product(v.y, factor);
    law_value_of_product(v.z, factor);
    let w = v.normalize();
    lemma_square_of_rounded(value(w.x), x);
    lemma_square_of_rounded(value(w.y), y);
    lemma_square_of_rounded(value(w.z), z);
    lemma_unit_coordinates(w);
    q
}

proof fn lemma_scaled_square(q: real, x: real)
    ensures
        (q * x) * (q * x) == (q * q) * (x * x),
        x * q == q * x,
        (q * x) * (q * x) >= 0real,
{
    assert((q * x) * (q * x) == (q * q) * (x * x)) by (nonlinear_arith);
    let y = q * x;
    assert(y * y >= 0real) by (nonlinear_arith);
}

proof fn lemma_root_of_two(x: real)
    requires
        x * x <= 2real,
    ensures
        size(x) <= 3real / 2real,
{
    assert(size(x) <= 3real / 2real) by (nonlinear_arith)
        requires
            x * x <= 2real,
    ;
}

/// Coordinates whose squares add up to little more than one are not great.
proof fn lemma_unit_coordinates(w: Vec3)
    requires
        w.x.is_finite() && w.y.is_finite() && w.z.is_finite(),
        exact_dot(w, w) <= 2real,
    ensures
        bounded_point(w, 150),
{
    lemma2_to64();
    let (x, y, z) = (value(w.x), value(w.y), value(w.z));
    assert(x * x >= 0real) by (nonlinear_arith);
    assert(y * y >= 0real) by (nonlinear_arith);
    assert(z * z >= 0real) by (nonlinear_arith);
    lemma_root_of_two(x);
    lemma_root_of_two(y);
    lemma_root_of_two(z);
    lemma_bounded_value(w.x, 1);
    lemma_bounded_value(w.y, 1);
    lemma_bounded_value(w.z, 1);
}

pub(crate) proof fn lemma_product_size(x: real, y: real, a: real, b: real)
    requires
        size(x) <= a,
        size(y) <= b,
    ensures
        size(x * y) <= a * b,
{
    lemma_size_of_product(x, y);
    let (p, q) = (size(x), size(y));
    assert(p * q <= a * b) by (nonlinear_arith)
        requires
            0real <= p <= a,
            0real <= q <= b,
    ;
}

/// The coordinates of a nearly unit vector.
pub(crate) proof fn lemma_nearly_unit_coordinates(v: Vec3)
    requires
        nearly_unit(v),
    ensures
        size(value(v.x)) <= 11real / 10real,
        size(value(v.y)) <= 11real / 10real,
        size(value(v.z)) <= 11real / 10real,
{
    let (x, y, z) = (value(v.x), value(v.y), value(v.z));
    assert(x * x >= 0real) by (nonlinear_arith);
    assert(y * y >= 0real) by (nonlinear_arith);
    assert(z * z >= 0real) by (nonlinear_arith);
    lemma_small_square(x);
    lemma_small_square(y);
    lemma_small_square(z);
}

pub(crate) proof fn lemma_small_square(x: real)
    requires
        x * x <= 101real / 100real,
    ensures
        size(x) <= 11real / 10real,
{
    assert(size(x) <= 11real / 10real) by (nonlinear_arith)
        requires
            x * x <= 101real / 100real,
    ;
}

pub(crate) proof fn lemma_square_of_three(a: real, b: real, c: real)
    ensures
        (a + b + c) * (a + b + c) == a * a + b * b + c * c + 2real * (a * b) + 2real * (a * c)
            + 2real * (b * c),
{
    assert((a + b + c) * (a + b + c) == a * a + b * b + c * c + 2real * (a * b) + 2real * (a * c)
        + 2real * (b * c)) by (nonlinear_arith);
}

pub(crate) proof fn lemma_square_of_difference(a: real, b: real)
    ensures
        (a - b) * (a - b) == a * a + b * b - 2real * (a * b),
{
    assert((a - b) * (a - b) == a * a + b * b - 2real * (a * b)) by (nonlinear_arith);
}

proof fn lemma_crossed(a: real, b: real, c: real, d: real)
    ensures
        (a * d) * (b * c) == (a * c) * (b * d),
        (a * d) * (a * d) == (a * a) * (d * d),
{
    assert((a * d) * (b * c) == (a * c) * (b * d)) by (nonlinear_arith);
    assert((a * d) * (a * d) == (a * a) * (d * d)) by (nonlinear_arith);
}

pub(crate) proof fn lemma_times_three(a: real, b: real, c: real, d: real)
    ensures
        (a + b + c) * d == a * d + b * d + c * d,
{
    assert((a + b + c) * d == a * d + b * d + c * d) by (nonlinear_arith);
}

/// The lengths of two vectors, their product and their cross product.
pub(crate) proof fn lemma_lengths_and_products(a: real, b: real, c: real, x: real, y: real, z: real)
    ensures
        (a * a + b * b + c * c) * (x * x + y * y + z * z) == (a * x + b * y + c * z) * (a * x + b * y
            + c * z) + ((b * z - y * c) * (b * z - y * c) + (c * x - z * a) * (c * x - z * a) + (a
            * y - x * b) * (a * y - x * b)),
{
    lemma_square_of_three(a * x, b * y, c * z);
    lemma_square_of_difference(b * z, y * c);
    lemma_square_of_difference(c * x, z * a);
    lemma_square_of_difference(a * y, x * b);
    let all = x * x + y * y + z * z;
    lemma_times_three(a * a, b * b, c * c, all);
    lemma_times_three(x * x, y * y, z * z, a * a);
    lemma_times_three(x * x, y * y, z * z, b * b);
    lemma_times_three(x * x, y * y, z * z, c * c);
    lemma_crossed(a, a, x, x);
    lemma_crossed(a, b, y, x);
    lemma_crossed(a, c, z, x);
    lemma_crossed(b, c, y, z);
    lemma_crossed(c, a, z, x);
    lemma_crossed(a, b, x, y);
    lemma_crossed(b, b, y, y);
    lemma_crossed(c, c, z, z);
    lemma_crossed(b, b, z, z);
    lemma_crossed(y, y, c, c);
    lemma_crossed(c, c, x, x);
    lemma_crossed(z, z, a, a);
    lemma_crossed(a, a, y, y);
    lemma_crossed(x, x, b, b);
}

pub(crate) proof fn lemma_product_of_three(a: real, b: real, c: real)
    ensures
        (a * b) * c == (c * b) * a,
        (a * b) * c == (a * c) * b,
{
    assert((a * b) * c == (c * b) * a) by (nonlinear_arith);
    assert((a * b) * c == (a * c) * b) by (nonlinear_arith);
}

pub(crate) proof fn lemma_times_difference(a: real, b: real, c: real)
    ensures
        (a - b) * c == a * c - b * c,
        (a + b) * c == a * c + b * c,
{
    assert((a - b) * c == a * c - b * c) by (nonlinear_arith);
    assert((a + b) * c == a * c + b * c) by (nonlinear_arith);
}

/// A cross product is at right angles to its first factor.
pub(crate) proof fn lemma_cross_is_across(a: real, b: real, c: real, x: real, y: real, z: real)
    ensures
        (b * z - y * c) * a + (c * x - z * a) * b + (a * y - x * b) * c == 0real,
        (b * z - y * c) * x + (c * x - z * a) * y + (a * y - x * b) * z == 0real,
{
    lemma_times_difference(b * z, y * c, a);
    lemma_times_difference(c * x, z * a, b);
    lemma_times_difference(a * y, x * b, c);
    lemma_times_difference(b * z, y * c, x);
    lemma_times_difference(c * x, z * a, y);
    lemma_times_difference(a * y, x * b, z);
    lemma_product_of_three(b, z, a);
    lemma_product_of_three(z, a, b);
    lemma_product_of_three(y, c, a);
    lemma_product_of_three(a, y, c);
    lemma_product_of_three(c, x, b);
    lemma_product_of_three(x, b, c);
    lemma_product_of_three(b, z, x);
    lemma_product_of_three(x, b, z);
    lemma_product_of_three(y, c, x);
    lemma_product_of_three(c, x, y);
    lemma_product_of_three(z, a, y);
    lemma_product_of_three(a, y, z);
}

/// The coordinates of the exact cross product.
pub open spec fn exact_cross(a: Vec3, b: Vec3) -> (real, real, real) {
    (
        value(a.y) * value(b.z) - value(b.y) * value(a.z),
        value(a.z) * value(b.x) - value(b.z) * value(a.x),
        value(a.x) * value(b.y) - value(b.x) * value(a.y),
    )
}

/// One coordinate of a rounded cross product of nearly unit vectors.
pub(crate) proof fn lemma_cross_coordinate(a: Binary32, b: Binary32, c: Binary32, d: Binary32)
    requires
        a.is_finite() && b.is_finite() && c.is_finite() && d.is_finite(),
        size(value(a)) <= 11real / 10real,
        size(value(b)) <= 11real / 10real,
        size(value(c)) <= 11real / 10real,
        size(value(d)) <= 11real / 10real,
    ensures
        a.times(b).minus(c.times(d)).is_finite(),
        size(value(a.times(b).minus(c.times(d))) - (value(a) * value(b) - value(c) * value(d)))
            <= 8real * part(1real),
        size(value(a) * value(b) - value(c) * value(d)) <= 5real / 2real,
{
    lemma_one_in_units();
    lemma_product_size(value(a), value(b), 11real / 10real, 11real / 10real);
    lemma_product_size(value(c), value(d), 11real / 10real, 11real / 10real);
    assert((11real / 10real) * (11real / 10real) == 121real / 100real) by (nonlinear_arith);
    lemma_two_products(a, b, c, d);
}

proof fn lemma_square_barely_less(c: real, r: real)
    requires
        size(c) <= 5real / 2real,
        size(r - c) <= 8real * part(1real),
    ensures
        r * r >= c * c - 40real * part(1real),
        size(r) <= 3real,
{
    let d = r - c;
    lemma_product_size(d, c, 1real / 2097152real, 5real / 2real);
    assert(r * r == c * c + 2real * (d * c) + d * d) by (nonlinear_arith)
        requires
            r == c + d,
    ;
    assert(d * d >= 0real) by (nonlinear_arith);
    assert((1real / 2097152real) * (5real / 2real) == 5real / 4194304real) by (nonlinear_arith);
}

pub(crate) proof fn lemma_three_sizes(
    a: real,
    b: real,
    c: real,
    x: real,
    y: real,
    z: real,
    m: real,
    n: real,
)
    requires
        size(a) <= m && size(b) <= m && size(c) <= m,
        size(x) <= n && size(y) <= n && size(z) <= n,
    ensures
        size(a * x + b * y + c * z) <= 3real * (m * n),
{
    lemma_product_size(a, x, m, n);
    lemma_product_size(b, y, m, n);
    lemma_product_size(c, z, m, n);
}

/// Whether coordinates are those of the exact cross product times a factor
/// between nought and four thirds, up to one part in two to the twentieth.
pub open spec fn follows_cross(w: Vec3, a: Vec3, b: Vec3, q: real) -> bool {
    let (x, y, z) = exact_cross(a, b);
    &&& 0real < q <= 4real / 3real
    &&& size(value(w.x) - q * x) <= 1real / 1048576real
    &&& size(value(w.y) - q * y) <= 1real / 1048576real
    &&& size(value(w.z) - q * z) <= 1real / 1048576real
}

/// Whether two vectors are at right angles, up to one part in two to the
/// eighteenth.
pub open spec fn nearly_across(a: Vec3, b: Vec3) -> bool {
    size(exact_dot(a, b)) <= 1real / 262144real
}

/// What a coordinate of a vector made one of unit length is off by.
proof fn lemma_followed(w: real, r: real, c: real, q: real)
    requires
        0real < q <= 4real / 3real,
        size(q * r) <= 3real / 2real,
        size(w - q * r) <= part(size(q * r)) + unit(),
        size(r - c) <= 8real * part(1real),
    ensures
        size(w - q * r) <= 2real * part(1real),
        size(w - q * c) <= 1real / 1048576real,
{
    lemma_one_in_units();
    let d = r - c;
    lemma_product_size(q, d, 4real / 3real, 8real * part(1real));
    assert(q * d == q * r - q * c) by (nonlinear_arith)
        requires
            d == r - c,
    ;
    assert((4real / 3real) * (8real * part(1real)) == 32real * part(1real) / 3real)
        by (nonlinear_arith);
}

/// The normalized cross product of two nearly unit vectors that are not too
/// close to parallel is nearly a unit vector at right angles to both.
pub(crate) proof fn lemma_cross_normalized(a: Vec3, b: Vec3) -> (q: real)
    requires
        nearly_unit(a),
        nearly_unit(b),
        size(exact_dot(a, b)) <= 3real / 5real,
    ensures
        nearly_unit(a.cross(b).normalize()),
        nearly_across(a.cross(b).normalize(), a),
        nearly_across(a.cross(b).normalize(), b),
        follows_cross(a.cross(b).normalize(), a, b, q),
        q >= 1real / 6real,
        q * q * ((1real - 1real / 262144real) - exact_dot(a, b) * exact_dot(a, b)) <= 1real
            + 1real / 65536real,
{
    lemma_one_in_units();
    lemma_nearly_unit_coordinates(a);
    lemma_nearly_unit_coordinates(b);
    let (x, y, z) = exact_cross(a, b);
    let v = a.cross(b);
    lemma_cross_coordinate(a.y, b.z, b.y, a.z);
    lemma_cross_coordinate(a.z, b.x, b.z, a.x);
    lemma_cross_coordinate(a.x, b.y, b.x, a.y);
    let (r, s, t) = (value(v.x), value(v.y), value(v.z));
    lemma_square_barely_less(x, r);
    lemma_square_barely_less(y, s);
    lemma_square_barely_less(z, t);
    lemma_lengths_and_products(
        value(a.x),
        value(a.y),
        value(a.z),
        value(b.x),
        value(b.y),
        value(b.z),
    );
    let (l, m, d) = (exact_dot(a, a), exact_dot(b, b), exact_dot(a, b));
    assert(l * m == d * d + (x * x + y * y + z * z));
    assert(l * m >= (524287real / 524288real) * (524287real / 524288real)) by (nonlinear_arith)
        requires
            l >= 524287real / 524288real,
            m >= 524287real / 524288real,
    ;
    assert((524287real / 524288real) * (524287real / 524288real) >= 262143real / 262144real)
        by (nonlinear_arith);
    lemma_square_size(d, 3real / 5real);
    assert((3real / 5real) * (3real / 5real) == 9real / 25real) by (nonlinear_arith);
    let length = exact_dot(v, v);
    assert(length >= 262143real / 262144real - d * d - 120real * part(1real));
    assert(length >= 63real / 100real);
    lemma_bounded_by_three(v);
    lemma_square_size(r, 3real);
    lemma_square_size(s, 3real);
    lemma_square_size(t, 3real);
    assert(3real * 3real == 9real);
    law_value_of_dot(v, v);
    assert(dot_sizes(v, v) == length);
    let q = lemma_normalize(v);
    let w = v.normalize();
    let g = q * q;
    lemma_factor_bound(g, length, d * d);
    assert(q <= 4real / 3real) by (nonlinear_arith)
        requires
            q * q <= 16real / 9real,
    ;
    assert(length <= 27real);
    assert(q >= 1real / 6real) by (nonlinear_arith)
        requires
            (q * q) * length >= 99real / 100real,
            0real < length <= 27real,
            q > 0real,
    ;
    lemma_image_coordinates(q, v);
    lemma_followed(value(w.x), r, x, q);
    lemma_followed(value(w.y), s, y, q);
    lemma_followed(value(w.z), t, z, q);
    lemma_across_factor(w, v, a, q, x, y, z);
    lemma_across_factor(w, v, b, q, x, y, z);
    lemma_cross_is_across(
        value(a.x),
        value(a.y),
        value(a.z),
        value(b.x),
        value(b.y),
        value(b.z),
    );
    q
}

proof fn lemma_factor_bound(g: real, length: real, dd: real)
    requires
        size(g * length - 1real) <= 16real * part(1real),
        length >= 63real / 100real,
        length >= 262143real / 262144real - dd - 120real * part(1real),
        0real <= dd <= 9real / 25real,
    ensures
        g <= 16real / 9real,
        g * ((1real - 1real / 262144real) - dd) <= 1real + 1real / 65536real,
{
    assert(g <= 16real / 9real) by (nonlinear_arith)
        requires
            g * length <= 1000001real / 1000000real,
            length >= 63real / 100real,
    ;
    let rest = (1real - 1real / 262144real) - dd;
    let gap = rest - length;
    if g >= 0real {
        assert(g * gap <= (16real / 9real) * (120real / 16777216real)) by (nonlinear_arith)
            requires
                0real <= g <= 16real / 9real,
                gap <= 120real / 16777216real,
        ;
    } else {
        assert(g * rest <= 0real) by (nonlinear_arith)
            requires
                g <= 0real,
                rest >= 0real,
        ;
    }
    assert(g * gap == g * rest - g * length) by (nonlinear_arith)
        requires
            gap == rest - length,
    ;
    assert((16real / 9real) * (120real / 16777216real) <= 1real / 70000real) by (nonlinear_arith);
}

pub(crate) proof fn lemma_bounded_by_three(v: Vec3)
    requires
        v.x.is_finite() && v.y.is_finite() && v.z.is_finite(),
        size(value(v.x)) <= 3real && size(value(v.y)) <= 3real && size(value(v.z)) <= 3real,
    ensures
        bounded_point(v, 209),
{
    lemma2_to64();
    lemma2_to64_rest();
    assert(pow2(60) == 1152921504606846976);
    lemma_bounded_value(v.x, 60);
    lemma_bounded_value(v.y, 60);
    lemma_bounded_value(v.z, 60);
}

/// The scaled coordinates before they are rounded.
pub(crate) proof fn lemma_image_coordinates(q: real, v: Vec3)
    requires
        size(q * q * exact_dot(v, v) - 1real) <= 16real * part(1real),
    ensures
        size(q * value(v.x)) <= 3real / 2real,
        size(q * value(v.y)) <= 3real / 2real,
        size(q * value(v.z)) <= 3real / 2real,
{
    let (x, y, z) = (value(v.x), value(v.y), value(v.z));
    lemma_scaled_square(q, x);
    lemma_scaled_square(q, y);
    lemma_scaled_square(q, z);
    let (a, b, c) = (x * x, y * y, z * z);
    let g = q * q;
    assert(g * (a + b + c) == g * a + g * b + g * c) by (nonlinear_arith);
    assert(exact_dot(v, v) == a + b + c);
    lemma_root_of_two(q * x);
    lemma_root_of_two(q * y);
    lemma_root_of_two(q * z);
}

/// How far a normalized vector is from right angles to another one.
proof fn lemma_across_factor(w: Vec3, v: Vec3, a: Vec3, q: real, x: real, y: real, z: real)
    requires
        0real < q <= 4real / 3real,
        size(value(w.x) - q * value(v.x)) <= 2real * part(1real),
        size(value(w.y) - q * value(v.y)) <= 2real * part(1real),
        size(value(w.z) - q * value(v.z)) <= 2real * part(1real),
        size(value(v.x) - x) <= 8real * part(1real),
        size(value(v.y) - y) <= 8real * part(1real),
        size(value(v.z) - z) <= 8real * part(1real),
        size(value(a.x)) <= 11real / 10real,
        size(value(a.y)) <= 11real / 10real,
        size(value(a.z)) <= 11real / 10real,
    ensures
        x * value(a.x) + y * value(a.y) + z * value(a.z) == 0real ==> nearly_across(w, a),
{
    let (i, j, k) = (value(a.x), value(a.y), value(a.z));
    let (r, s, t) = (value(v.x), value(v.y), value(v.z));
    let (f, g, h) = (value(w.x) - q * r, value(w.y) - q * s, value(w.z) - q * t);
    let (l, m, n) = (r - x, s - y, t - z);
    lemma_three_sizes(f, g, h, i, j, k, 2real * part(1real), 11real / 10real);
    lemma_three_sizes(l, m, n, i, j, k, 8real * part(1real), 11real / 10real);
    assert((2real * part(1real)) * (11real / 10real) <= 3real * part(1real)) by (nonlinear_arith);
    assert((8real * part(1real)) * (11real / 10real) <= 9real * part(1real)) by (nonlinear_arith);
    lemma_times_difference(value(w.x), q * r, i);
    lemma_times_difference(value(w.y), q * s, j);
    lemma_times_difference(value(w.z), q * t, k);
    lemma_times_difference(r, x, i);
    lemma_times_difference(s, y, j);
    lemma_times_difference(t, z, k);
    let sum = r * i + s * j + t * k;
    lemma_times_three(r * i, s * j, t * k, q);
    lemma_product_of_three(q, r, i);
    lemma_product_of_three(q, s, j);
    lemma_product_of_three(q, t, k);
    if x * i + y * j + z * k == 0real {
        assert(size(sum) <= 27real * part(1real));
        lemma_product_size(sum, q, 27real * part(1real), 4real / 3real);
        assert((27real * part(1real)) * (4real / 3real) == 36real * part(1real))
            by (nonlinear_arith);
        assert(exact_dot(w, a) == (f * i + g * j + h * k) + sum * q);
    }
}

/// The length of a vector, as far as its square is not too great.
pub proof fn law_value_of_length(v: Vec3)
    requires
        v.x.is_finite() && v.y.is_finite() && v.z.is_finite(),
        exact_dot(v, v) <= large() / 4real,
    ensures
        v.length().is_finite(),
        value(v.length()) >= 0real,
        size(value(v.length()) * value(v.length()) - exact_dot(v, v)) <= 9real * part(
            exact_dot(v, v),
        ) + 8real * unit(),
{
    lemma_one_in_units();
    let e = exact_dot(v, v);
    lemma_own_product(value(v.x));
    lemma_own_product(value(v.y));
    lemma_own_product(value(v.z));
    assert(dot_sizes(v, v) == e);
    law_value_of_dot(v, v);
    law_squared_length_is_not_negative(v);
    lemma_value_of_sign(v.length_squared());
    law_value_of_root(v.length_squared());
}

proof fn lemma_own_product(r: real)
    ensures
        r * r >= 0real,
        size(r * r) == r * r,
{
    assert(r * r >= 0real) by (nonlinear_arith);
}

} // verus!
