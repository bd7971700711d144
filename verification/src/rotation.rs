//! Rotations as matrices and as quaternions: turning one into the other and
//! back leaves the axes as they are, up to rounding.
use crate::binary32::{Binary32, HALF, ONE, ZERO};
use crate::directions::{
    exact_cross, exact_dot, lemma_cross_coordinate, lemma_cross_is_across, lemma_cross_normalized,
    lemma_factor, lemma_three_sizes,
    lemma_lengths_and_products, lemma_nearly_unit_coordinates, lemma_product_of_three,
    lemma_product_size, lemma_share_of_root, lemma_small_square, lemma_square_size,
    lemma_times_difference, lemma_times_three, lemma_within, nearly_across, nearly_unit,
};
use crate::value::{
    law_order_of_values, law_value_of_product, law_value_of_quotient, law_value_of_root,
    law_value_of_sum, law_values_of_constants, lemma_one_in_units, near, part, size, unit, value,
};
use crate::vector::{Mat3, Quat, Vec3};
use vstd::prelude::*;

verus! {

/// A matrix of real numbers, row by row.
pub struct Nine {
    pub a: real,
    pub b: real,
    pub c: real,
    pub d: real,
    pub e: real,
    pub f: real,
    pub g: real,
    pub h: real,
    pub i: real,
}

impl Nine {
    /// The axes of a basis, one to a row.
    pub open spec fn of(basis: Mat3) -> Nine {
        Nine {
            a: value(basis.x_axis.x),
            b: value(basis.x_axis.y),
            c: value(basis.x_axis.z),
            d: value(basis.y_axis.x),
            e: value(basis.y_axis.y),
            f: value(basis.y_axis.z),
            g: value(basis.z_axis.x),
            h: value(basis.z_axis.y),
            i: value(basis.z_axis.z),
        }
    }

    /// The same matrix with axes and coordinates moved on by one.
    spec fn turned(self) -> Nine {
        Nine {
            a: self.e,
            b: self.f,
            c: self.d,
            d: self.h,
            e: self.i,
            f: self.g,
            g: self.b,
            h: self.c,
            i: self.a,
        }
    }

    /// Whether rows and columns are unit vectors at right angles.
    pub open spec fn orthonormal_within(self, error: real) -> bool {
        let (a, b, c) = (self.a, self.b, self.c);
        let (d, e, f) = (self.d, self.e, self.f);
        let (g, h, i) = (self.g, self.h, self.i);
        &&& size(a * a + b * b + c * c - 1real) <= error
        &&& size(d * d + e * e + f * f - 1real) <= error
        &&& size(g * g + h * h + i * i - 1real) <= error
        &&& size(a * a + d * d + g * g - 1real) <= error
        &&& size(b * b + e * e + h * h - 1real) <= error
        &&& size(c * c + f * f + i * i - 1real) <= error
        &&& size(a * d + b * e + c * f) <= error
        &&& size(d * g + e * h + f * i) <= error
        &&& size(g * a + h * b + i * c) <= error
        &&& size(a * b + d * e + g * h) <= error
        &&& size(b * c + e * f + h * i) <= error
        &&& size(c * a + f * d + i * g) <= error
    }

    /// Whether each row is the cross product of the next two.
    pub open spec fn right_handed_within(self, error: real) -> bool {
        let (a, b, c) = (self.a, self.b, self.c);
        let (d, e, f) = (self.d, self.e, self.f);
        let (g, h, i) = (self.g, self.h, self.i);
        &&& size(a - (e * i - f * h)) <= error
        &&& size(b - (f * g - d * i)) <= error
        &&& size(c - (d * h - e * g)) <= error
        &&& size(d - (h * c - i * b)) <= error
        &&& size(e - (i * a - g * c)) <= error
        &&& size(f - (g * b - h * a)) <= error
        &&& size(g - (b * f - c * e)) <= error
        &&& size(h - (c * d - a * f)) <= error
        &&& size(i - (a * e - b * d)) <= error
    }

    /// Whether a matrix is a rotation up to some error.
    pub open spec fn rotation_within(self, error: real) -> bool {
        self.orthonormal_within(error) && self.right_handed_within(error)
    }
}

proof fn lemma_turned(m: Nine, error: real)
    requires
        m.rotation_within(error),
    ensures
        m.turned().rotation_within(error),
{
}

proof fn lemma_four_times(a: real, b: real, c: real, x: real)
    ensures
        (1real + a + b + c) * x == x + a * x + b * x + c * x,
{
    assert((1real + a + b + c) * x == x + a * x + b * x + c * x) by (nonlinear_arith);
}

proof fn lemma_two_by_two(p: real, q: real, r: real, s: real)
    ensures
        (p + q) * (r + s) == p * r + p * s + q * r + q * s,
        (p - q) * (r + s) == p * r + p * s - q * r - q * s,
        (p - q) * (r - s) == p * r - p * s - q * r + q * s,
{
    assert((p + q) * (r + s) == p * r + p * s + q * r + q * s) by (nonlinear_arith);
    assert((p - q) * (r + s) == p * r + p * s - q * r - q * s) by (nonlinear_arith);
    assert((p - q) * (r - s) == p * r - p * s - q * r + q * s) by (nonlinear_arith);
}

proof fn lemma_negated(a: real, x: real)
    ensures
        (-a) * x == -(a * x),
{
    assert((-a) * x == -(a * x)) by (nonlinear_arith);
}

proof fn lemma_times_pair(a: real, b: real, d: real)
    ensures
        a * (b - d) == a * b - a * d,
        a * (b + d) == a * b + a * d,
{
    assert(a * (b - d) == a * b - a * d) by (nonlinear_arith);
    assert(a * (b + d) == a * b + a * d) by (nonlinear_arith);
}

/// The products with the divisor where the first component is the great one.
proof fn lemma_first_divisor(a: real, e: real, i: real, x: real)
    ensures
        (1real + a - e - i) * x == x + a * x - e * x - i * x,
{
    lemma_four_times(a, -e, -i, x);
    lemma_negated(e, x);
    lemma_negated(i, x);
    assert(1real + a + (-e) + (-i) == 1real + a - e - i);
}

proof fn lemma_first_a(a: real, b: real, c: real, d: real, e: real, g: real, i: real)
    ensures
        ({
            let k = 1real + a - e - i;
            (b + d) * (b + d) + (c + g) * (c + g) - 2real * (k * (1real - a)) == (a * a + b * b + c * c
                - 1real) + (a * a + d * d + g * g - 1real) + 2real * (e - (i * a - g * c)) + 2real * (i
                - (a * e - b * d))
        }),
{
    let k = 1real + a - e - i;
    lemma_two_by_two(b, d, b, d);
    lemma_two_by_two(c, g, c, g);
    lemma_first_divisor(a, e, i, a);
    lemma_times_difference(1real, a, k);
}

proof fn lemma_first_b(
    a: real,
    b: real,
    c: real,
    e: real,
    g: real,
    h: real,
    i: real,
)
    ensures
        ({
            let k = 1real + a - e - i;
            k * k + (c + g) * (c + g) - 2real * (k * (1real - e)) == (a * a + b * b + c * c - 1real) + (g
                * g + h * h + i * i - 1real) - (b * b + e * e + h * h - 1real) + 2real * (e - (i * a - g
                * c))
        }),
{
    let k = 1real + a - e - i;
    lemma_two_by_two(c, g, c, g);
    lemma_first_divisor(a, e, i, a);
    lemma_first_divisor(a, e, i, e);
    lemma_first_divisor(a, e, i, i);
    lemma_first_divisor(a, e, i, k);
    lemma_times_difference(1real, e, k);
}

proof fn lemma_first_c(
    a: real,
    b: real,
    c: real,
    d: real,
    e: real,
    f: real,
    i: real,
)
    ensures
        ({
            let k = 1real + a - e - i;
            k * k + (b + d) * (b + d) - 2real * (k * (1real - i)) == (a * a + b * b + c * c - 1real) + (d
                * d + e * e + f * f - 1real) - (c * c + f * f + i * i - 1real) + 2real * (i - (a * e - b
                * d))
        }),
{
    let k = 1real + a - e - i;
    lemma_two_by_two(b, d, b, d);
    lemma_first_divisor(a, e, i, a);
    lemma_first_divisor(a, e, i, e);
    lemma_first_divisor(a, e, i, i);
    lemma_first_divisor(a, e, i, k);
    lemma_times_difference(1real, i, k);
}

proof fn lemma_first_d(
    a: real,
    b: real,
    c: real,
    d: real,
    e: real,
    f: real,
    g: real,
    h: real,
    i: real,
)
    ensures
        (1real + a - e - i) * (b - d) - (f - h) * (c + g) == (b - (f * g - d * i)) - (d - (h * c - i
                * b)) + (a * b + d * e + g * h) - (a * d + b * e + c * f),
{
    lemma_first_divisor(a, e, i, b - d);
    lemma_times_pair(a, b, d);
    lemma_times_pair(e, b, d);
    lemma_times_pair(i, b, d);
    lemma_two_by_two(f, h, c, g);
}

proof fn lemma_first_e(
    a: real,
    b: real,
    c: real,
    d: real,
    e: real,
    f: real,
    g: real,
    h: real,
    i: real,
)
    ensures
        (1real + a - e - i) * (c - g) + (f - h) * (b + d) == (c - (d * h - e * g)) - (g - (b * f - c
                * e)) + (c * a + f * d + i * g) - (g * a + h * b + i * c),
{
    lemma_first_divisor(a, e, i, c - g);
    lemma_times_pair(a, c, g);
    lemma_times_pair(e, c, g);
    lemma_times_pair(i, c, g);
    lemma_two_by_two(f, h, b, d);
}

proof fn lemma_first_f(
    a: real,
    b: real,
    c: real,
    d: real,
    e: real,
    f: real,
    g: real,
    h: real,
    i: real,
)
    ensures
        (b + d) * (c + g) - (1real + a - e - i) * (f + h) == (b * c + e * f + h * i) + (d * g + e * h
                + f * i) - (f - (g * b - h * a)) - (h - (c * d - a * f)),
{
    lemma_first_divisor(a, e, i, f + h);
    lemma_times_pair(a, f, h);
    lemma_times_pair(e, f, h);
    lemma_times_pair(i, f, h);
    lemma_two_by_two(b, d, c, g);
}

/// Six small terms.
proof fn lemma_six_small(a: real, b: real, c: real, d: real, error: real, sum: real)
    requires
        size(a) <= error,
        size(b) <= error,
        size(c) <= error,
        size(d) <= error,
    ensures
        sum == a + b + 2real * c + 2real * d ==> size(sum) <= 6real * error,
        sum == a + b - 2real * c - 2real * d ==> size(sum) <= 6real * error,
        sum == a + b - c + 2real * d ==> size(sum) <= 6real * error,
        sum == a - b + c - d ==> size(sum) <= 6real * error,
        sum == a + b - c - d ==> size(sum) <= 6real * error,
        sum == a + b + c + d ==> size(sum) <= 6real * error,
{
}

/// How the squares of sums of entries hang together where the first component
/// is the great one.
proof fn lemma_first_squares(m: Nine, error: real, k: real, y: real, z: real)
    requires
        m.rotation_within(error),
        k == 1real + m.a - m.e - m.i,
        y == m.b + m.d,
        z == m.c + m.g,
    ensures
        size(y * y + z * z - 2real * (k * (1real - m.a))) <= 6real * error,
        size(k * k + z * z - 2real * (k * (1real - m.e))) <= 6real * error,
        size(k * k + y * y - 2real * (k * (1real - m.i))) <= 6real * error,
{
    let (a, b, c, d, e, f, g, h, i) = (m.a, m.b, m.c, m.d, m.e, m.f, m.g, m.h, m.i);
    let (r, s, t) = (
        a * a + b * b + c * c - 1real,
        d * d + e * e + f * f - 1real,
        g * g + h * h + i * i - 1real,
    );
    let (u, v, w) = (
        a * a + d * d + g * g - 1real,
        b * b + e * e + h * h - 1real,
        c * c + f * f + i * i - 1real,
    );
    let (p, q) = (e - (i * a - g * c), i - (a * e - b * d));
    lemma_first_a(a, b, c, d, e, g, i);
    lemma_first_b(a, b, c, e, g, h, i);
    lemma_first_c(a, b, c, d, e, f, i);
    lemma_six_small(r, u, p, q, error, y * y + z * z - 2real * (k * (1real - a)));
    lemma_six_small(r, t, v, p, error, k * k + z * z - 2real * (k * (1real - e)));
    lemma_six_small(r, s, w, q, error, k * k + y * y - 2real * (k * (1real - i)));
}

/// How the other products of sums and differences of entries hang together
/// there.
proof fn lemma_first_products(m: Nine, error: real, k: real, y: real, z: real, w: real)
    requires
        m.rotation_within(error),
        k == 1real + m.a - m.e - m.i,
        y == m.b + m.d,
        z == m.c + m.g,
        w == m.f - m.h,
    ensures
        size(y * y + z * z - 2real * (k * (1real - m.a))) <= 6real * error,
        size(k * k + z * z - 2real * (k * (1real - m.e))) <= 6real * error,
        size(k * k + y * y - 2real * (k * (1real - m.i))) <= 6real * error,
        size(w * z - k * (m.b - m.d)) <= 6real * error,
        size(w * y + k * (m.c - m.g)) <= 6real * error,
        size(y * z - k * (m.f + m.h)) <= 6real * error,
{
    let (a, b, c, d, e, f, g, h, i) = (m.a, m.b, m.c, m.d, m.e, m.f, m.g, m.h, m.i);
    lemma_first_squares(m, error, k, y, z);
    lemma_first_d(a, b, c, d, e, f, g, h, i);
    lemma_first_e(a, b, c, d, e, f, g, h, i);
    lemma_first_f(a, b, c, d, e, f, g, h, i);
    lemma_six_small(
        b - (f * g - d * i),
        d - (h * c - i * b),
        a * b + d * e + g * h,
        a * d + b * e + c * f,
        error,
        k * (b - d) - w * z,
    );
    lemma_six_small(
        c - (d * h - e * g),
        g - (b * f - c * e),
        c * a + f * d + i * g,
        g * a + h * b + i * c,
        error,
        k * (c - g) + w * y,
    );
    lemma_six_small(
        b * c + e * f + h * i,
        d * g + e * h + f * i,
        f - (g * b - h * a),
        h - (c * d - a * f),
        error,
        y * z - k * (f + h),
    );
}

proof fn lemma_last_a(a: real, b: real, c: real, d: real, e: real, g: real, i: real)
    ensures
        ({
            let k = 1real + a + e + i;
            (g - c) * (g - c) + (b - d) * (b - d) - 2real * (k * (1real - a)) == (a * a + b * b + c * c
                - 1real) + (a * a + d * d + g * g - 1real) - 2real * (e - (i * a - g * c)) - 2real * (i
                - (a * e - b * d))
        }),
{
    let k = 1real + a + e + i;
    lemma_two_by_two(g, c, g, c);
    lemma_two_by_two(b, d, b, d);
    lemma_four_times(a, e, i, a);
    lemma_times_difference(1real, a, k);
}

proof fn lemma_last_b(
    a: real,
    b: real,
    c: real,
    d: real,
    e: real,
    f: real,
    g: real,
    h: real,
    i: real,
)
    ensures
        (1real + a + e + i) * (b + d) - (f - h) * (g - c) == (b - (f * g - d * i)) + (d - (h * c - i
                * b)) + (a * b + d * e + g * h) + (a * d + b * e + c * f),
{
    lemma_four_times(a, e, i, b + d);
    lemma_times_pair(a, b, d);
    lemma_times_pair(e, b, d);
    lemma_times_pair(i, b, d);
    lemma_two_by_two(f, h, g, c);
}

/// How they hang together where the last component is the great one.
proof fn lemma_last_products(m: Nine, error: real, k: real, x: real, y: real, z: real)
    requires
        m.rotation_within(error),
        k == 1real + m.a + m.e + m.i,
        x == m.f - m.h,
        y == m.g - m.c,
        z == m.b - m.d,
    ensures
        size(y * y + z * z - 2real * (k * (1real - m.a))) <= 6real * error,
        size(x * y - k * (m.b + m.d)) <= 6real * error,
{
    let (a, b, c, d, e, f, g, h, i) = (m.a, m.b, m.c, m.d, m.e, m.f, m.g, m.h, m.i);
    lemma_last_a(a, b, c, d, e, g, i);
    lemma_last_b(a, b, c, d, e, f, g, h, i);
    lemma_six_small(
        a * a + b * b + c * c - 1real,
        a * a + d * d + g * g - 1real,
        e - (i * a - g * c),
        i - (a * e - b * d),
        error,
        y * y + z * z - 2real * (k * (1real - a)),
    );
    lemma_six_small(
        b - (f * g - d * i),
        d - (h * c - i * b),
        a * b + d * e + g * h,
        a * d + b * e + c * f,
        error,
        k * (b + d) - x * y,
    );
}

/// The share by which all components are multiplied.
proof fn lemma_share(square: Binary32, k: real) -> (t: real)
    requires
        near(square, k, 4real * part(k)),
        1real <= k <= 5real,
    ensures
        ({
            let share = Binary32::of(HALF).over(square.root());
            &&& share.is_finite()
            &&& t == value(share)
            &&& 0real < t <= 3real / 5real
            &&& size(4real * ((t * t) * k) - 1real) <= 16real * part(1real)
        }),
{
    lemma_one_in_units();
    law_values_of_constants();
    law_value_of_root(square);
    let root = square.root();
    let r = value(root);
    assert(r <= 5real / 2real) by (nonlinear_arith)
        requires
            r * r <= 51real / 10real,
            r >= 0real,
    ;
    assert(r >= 99real / 100real) by (nonlinear_arith)
        requires
            r * r >= 99real / 100real,
            r >= 0real,
    ;
    let half = 1real / 2real;
    assert(half / r <= 13real / 25real) by (nonlinear_arith)
        requires
            r >= 99real / 100real,
            half == 1real / 2real,
    ;
    assert(half / r > 0real) by (nonlinear_arith)
        requires
            r >= 99real / 100real,
            half == 1real / 2real,
    ;
    law_value_of_quotient(Binary32::of(HALF), root);
    let share = Binary32::of(HALF).over(root);
    let t = value(share);
    let q = 2real * t;
    let whole = 1real / r;
    assert(whole == 2real * (half / r)) by (nonlinear_arith)
        requires
            whole == 1real / r,
            half == 1real / 2real,
            r >= 99real / 100real,
    ;
    assert(unit() * r <= part(1real)) by (nonlinear_arith)
        requires
            unit() <= 1real / 1000000000000000000000000000000000000000000real,
            0real <= r <= 5real / 2real,
            unit() > 0real,
            part(1real) == 1real / 16777216real,
    ;
    lemma_share_of_root(q, r, unit());
    lemma_factor(q, r, value(square), k);
    assert(q * q * k == 4real * ((t * t) * k)) by (nonlinear_arith)
        requires
            q == 2real * t,
    ;
    t
}

/// One component: a numerator times the share.
proof fn lemma_component(n: Binary32, share: Binary32, exact: real)
    requires
        near(n, exact, 20real * part(1real)),
        size(exact) <= 5real,
        share.is_finite(),
        0real < value(share) <= 3real / 5real,
    ensures
        near(n.times(share), exact * value(share), 16real * part(1real)),
        size(exact * value(share)) <= 3real,
{
    lemma_one_in_units();
    let t = value(share);
    let d = value(n) - exact;
    lemma_product_size(exact, t, 5real, 3real / 5real);
    lemma_product_size(d, t, 20real * part(1real), 3real / 5real);
    assert(5real * (3real / 5real) == 3real) by (nonlinear_arith);
    assert((20real * part(1real)) * (3real / 5real) == 12real * part(1real)) by (nonlinear_arith);
    lemma_times_difference(value(n), exact, t);
    lemma_within(exact * t, value(n) * t, 3real, 12real * part(1real));
    law_value_of_product(n, share);
}

/// Twice the product of two components.
proof fn lemma_pair(p: Binary32, q: Binary32, x: real, y: real, t: real)
    requires
        near(p, x * t, 16real * part(1real)),
        near(q, y * t, 16real * part(1real)),
        size(x * t) <= 3real,
        size(y * t) <= 3real,
    ensures
        near(p.times(q.plus(q)), 2real * ((t * t) * (x * y)), 320real * part(1real)),
        size(2real * ((t * t) * (x * y))) <= 18real,
{
    lemma_one_in_units();
    let (u, v) = (x * t, y * t);
    law_value_of_sum(q, q);
    let twice = q.plus(q);
    let d = value(twice);
    lemma_within(v, value(q), 3real, 16real * part(1real));
    lemma_within(2real * v, d, 6real, 40real * part(1real));
    lemma_within(u, value(p), 3real, 16real * part(1real));
    lemma_product_size(u, 2real * v, 3real, 6real);
    lemma_product_size(value(p), d, 4real, 7real);
    lemma_product_size(value(p) - u, d, 16real * part(1real), 7real);
    lemma_product_size(u, d - 2real * v, 3real, 40real * part(1real));
    assert(3real * 6real == 18real && 4real * 7real == 28real);
    assert((16real * part(1real)) * 7real == 112real * part(1real)) by (nonlinear_arith);
    assert(3real * (40real * part(1real)) == 120real * part(1real));
    lemma_times_difference(value(p), u, d);
    assert(u * (d - 2real * v) == u * d - u * (2real * v)) by (nonlinear_arith);
    law_value_of_product(p, twice);
    assert(u * (2real * v) == 2real * ((t * t) * (x * y))) by {
        assert((x * t) * (y * t) == (t * t) * (x * y)) by (nonlinear_arith);
        assert(u * (2real * v) == 2real * (u * v)) by (nonlinear_arith);
    }
}

/// An entry on the diagonal: one less two products.
proof fn lemma_diagonal_entry(p: Binary32, q: Binary32, x: real, y: real)
    requires
        near(p, x, 320real * part(1real)),
        near(q, y, 320real * part(1real)),
        size(x) <= 18real,
        size(y) <= 18real,
    ensures
        near(Binary32::of(ONE).minus(p.plus(q)), 1real - (x + y), 800real * part(1real)),
{
    law_values_of_constants();
    lemma_within(x, value(p), 18real, 320real * part(1real));
    lemma_within(y, value(q), 18real, 320real * part(1real));
    law_value_of_sum(p, q);
    lemma_within(x + y, value(p.plus(q)), 36real, 720real * part(1real));
    law_value_of_sum(Binary32::of(ONE), p.plus(q));
}

/// Any other entry: a sum or a difference of two products.
proof fn lemma_other_entry(p: Binary32, q: Binary32, x: real, y: real)
    requires
        near(p, x, 320real * part(1real)),
        near(q, y, 320real * part(1real)),
        size(x) <= 18real,
        size(y) <= 18real,
    ensures
        near(p.plus(q), x + y, 800real * part(1real)),
        near(p.minus(q), x - y, 800real * part(1real)),
{
    lemma_within(x, value(p), 18real, 320real * part(1real));
    lemma_within(y, value(q), 18real, 320real * part(1real));
    law_value_of_sum(p, q);
}

/// What a sum of two products of components stands for, where it is twice the
/// divisor times an entry.
proof fn lemma_entry(s: real, t: real, k: real, entry: real, error: real)
    requires
        0real < t <= 3real / 5real,
        size(4real * ((t * t) * k) - 1real) <= 16real * part(1real),
        size(s - 2real * (k * entry)) <= 6real * error,
        size(entry) <= 5real / 2real,
        0real <= error,
    ensures
        size(2real * ((t * t) * s) - entry) <= 40real * part(1real) + 5real * error,
{
    let g = t * t;
    assert(0real <= g <= 9real / 25real) by (nonlinear_arith)
        requires
            g == t * t,
            0real < t <= 3real / 5real,
    ;
    let rest = s - 2real * (k * entry);
    lemma_product_size(g, rest, 9real / 25real, 6real * error);
    assert((9real / 25real) * (6real * error) == 54real * error / 25real) by (nonlinear_arith);
    assert(g * rest == g * s - 2real * ((g * k) * entry)) by (nonlinear_arith)
        requires
            rest == s - 2real * (k * entry),
    ;
    let one = 4real * (g * k);
    lemma_product_size(one - 1real, entry, 16real * part(1real), 5real / 2real);
    assert((16real * part(1real)) * (5real / 2real) == 40real * part(1real)) by (nonlinear_arith);
    lemma_times_difference(one, 1real, entry);
    assert(one * entry == 4real * ((g * k) * entry)) by (nonlinear_arith)
        requires
            one == 4real * (g * k),
    ;
}

/// Whether components are numerators times a share.
spec fn components(r: Quat, x: real, y: real, z: real, w: real, t: real) -> bool {
    &&& near(r.x, x * t, 16real * part(1real))
    &&& near(r.y, y * t, 16real * part(1real))
    &&& near(r.z, z * t, 16real * part(1real))
    &&& near(r.w, w * t, 16real * part(1real))
    &&& size(x * t) <= 3real
    &&& size(y * t) <= 3real
    &&& size(z * t) <= 3real
    &&& size(w * t) <= 3real
}

/// Whether twice the product of two numerators, or of their sum with another
/// such product, is an entry.
spec fn makes(s: real, k: real, entry: real, error: real) -> bool {
    size(s - 2real * (k * entry)) <= 6real * error && size(entry) <= 5real / 2real
}

/// How far entries may be off that went through a quaternion: one part in two to
/// the fourteenth, and five times what the matrix is no rotation by.
pub open spec fn kept(x: Binary32, entry: real, error: real) -> bool {
    near(x, entry, 1real / 16384real + 5real * error)
}

/// Whether a basis is a matrix up to what a quaternion leaves out.
pub open spec fn all_kept(basis: Mat3, m: Nine, error: real) -> bool {
    &&& kept(basis.x_axis.x, m.a, error)
    &&& kept(basis.x_axis.y, m.b, error)
    &&& kept(basis.x_axis.z, m.c, error)
    &&& kept(basis.y_axis.x, m.d, error)
    &&& kept(basis.y_axis.y, m.e, error)
    &&& kept(basis.y_axis.z, m.f, error)
    &&& kept(basis.z_axis.x, m.g, error)
    &&& kept(basis.z_axis.y, m.h, error)
    &&& kept(basis.z_axis.z, m.i, error)
}

proof fn lemma_diagonal_kept(
    p: Binary32,
    q: Binary32,
    x: real,
    y: real,
    t: real,
    k: real,
    entry: real,
    error: real,
)
    requires
        near(p, 2real * ((t * t) * x), 320real * part(1real)),
        near(q, 2real * ((t * t) * y), 320real * part(1real)),
        size(2real * ((t * t) * x)) <= 18real,
        size(2real * ((t * t) * y)) <= 18real,
        0real < t <= 3real / 5real,
        size(4real * ((t * t) * k) - 1real) <= 16real * part(1real),
        makes(x + y, k, 1real - entry, error),
        0real <= error,
    ensures
        kept(Binary32::of(ONE).minus(p.plus(q)), entry, error),
{
    let g = t * t;
    lemma_diagonal_entry(p, q, 2real * (g * x), 2real * (g * y));
    lemma_times_difference(x, y, g);
    lemma_entry(x + y, t, k, 1real - entry, error);
    assert(g * (x + y) == g * x + g * y) by (nonlinear_arith);
}

proof fn lemma_sum_kept(
    p: Binary32,
    q: Binary32,
    x: real,
    y: real,
    t: real,
    k: real,
    entry: real,
    error: real,
)
    requires
        near(p, 2real * ((t * t) * x), 320real * part(1real)),
        near(q, 2real * ((t * t) * y), 320real * part(1real)),
        size(2real * ((t * t) * x)) <= 18real,
        size(2real * ((t * t) * y)) <= 18real,
        0real < t <= 3real / 5real,
        size(4real * ((t * t) * k) - 1real) <= 16real * part(1real),
        0real <= error,
    ensures
        makes(x + y, k, entry, error) ==> kept(p.plus(q), entry, error),
        makes(x - y, k, entry, error) ==> kept(p.minus(q), entry, error),
{
    let g = t * t;
    lemma_other_entry(p, q, 2real * (g * x), 2real * (g * y));
    assert(g * (x + y) == g * x + g * y) by (nonlinear_arith);
    assert(g * (x - y) == g * x - g * y) by (nonlinear_arith);
    if makes(x + y, k, entry, error) {
        lemma_entry(x + y, t, k, entry, error);
    }
    if makes(x - y, k, entry, error) {
        lemma_entry(x - y, t, k, entry, error);
    }
}

/// The basis of a quaternion whose numerators hang together as those of a
/// rotation.
proof fn lemma_basis_kept(
    r: Quat,
    x: real,
    y: real,
    z: real,
    w: real,
    t: real,
    k: real,
    m: Nine,
    error: real,
)
    requires
        components(r, x, y, z, w, t),
        0real < t <= 3real / 5real,
        size(4real * ((t * t) * k) - 1real) <= 16real * part(1real),
        0real <= error,
        makes(y * y + z * z, k, 1real - m.a, error),
        makes(x * x + z * z, k, 1real - m.e, error),
        makes(x * x + y * y, k, 1real - m.i, error),
        makes(x * y + w * z, k, m.b, error),
        makes(x * y - w * z, k, m.d, error),
        makes(x * z - w * y, k, m.c, error),
        makes(x * z + w * y, k, m.g, error),
        makes(y * z + w * x, k, m.f, error),
        makes(y * z - w * x, k, m.h, error),
    ensures
        all_kept(r.basis(), m, error),
{
    let (x2, y2, z2) = (r.x.plus(r.x), r.y.plus(r.y), r.z.plus(r.z));
    lemma_pair(r.x, r.x, x, x, t);
    lemma_pair(r.x, r.y, x, y, t);
    lemma_pair(r.x, r.z, x, z, t);
    lemma_pair(r.y, r.y, y, y, t);
    lemma_pair(r.y, r.z, y, z, t);
    lemma_pair(r.z, r.z, z, z, t);
    lemma_pair(r.w, r.x, w, x, t);
    lemma_pair(r.w, r.y, w, y, t);
    lemma_pair(r.w, r.z, w, z, t);
    let (xx, xy, xz) = (r.x.times(x2), r.x.times(y2), r.x.times(z2));
    let (yy, yz, zz) = (r.y.times(y2), r.y.times(z2), r.z.times(z2));
    let (wx, wy, wz) = (r.w.times(x2), r.w.times(y2), r.w.times(z2));
    lemma_diagonal_kept(yy, zz, y * y, z * z, t, k, m.a, error);
    lemma_diagonal_kept(xx, zz, x * x, z * z, t, k, m.e, error);
    lemma_diagonal_kept(xx, yy, x * x, y * y, t, k, m.i, error);
    lemma_sum_kept(xy, wz, x * y, w * z, t, k, m.b, error);
    lemma_sum_kept(xy, wz, x * y, w * z, t, k, m.d, error);
    lemma_sum_kept(xz, wy, x * z, w * y, t, k, m.c, error);
    lemma_sum_kept(xz, wy, x * z, w * y, t, k, m.g, error);
    lemma_sum_kept(yz, wx, y * z, w * x, t, k, m.f, error);
    lemma_sum_kept(yz, wx, y * z, w * x, t, k, m.h, error);
}

proof fn lemma_entries_small(m: Nine, error: real)
    requires
        m.rotation_within(error),
        error <= 1real / 100real,
    ensures
        size(m.a) <= 11real / 10real && size(m.b) <= 11real / 10real && size(m.c) <= 11real / 10real,
        size(m.d) <= 11real / 10real && size(m.e) <= 11real / 10real && size(m.f) <= 11real / 10real,
        size(m.g) <= 11real / 10real && size(m.h) <= 11real / 10real && size(m.i) <= 11real / 10real,
        error >= 0real,
{
    lemma_row_small(m.a, m.b, m.c);
    lemma_row_small(m.d, m.e, m.f);
    lemma_row_small(m.g, m.h, m.i);
}

proof fn lemma_row_small(a: real, b: real, c: real)
    requires
        a * a + b * b + c * c <= 101real / 100real,
    ensures
        size(a) <= 11real / 10real && size(b) <= 11real / 10real && size(c) <= 11real / 10real,
{
    assert(a * a >= 0real) by (nonlinear_arith);
    assert(b * b >= 0real) by (nonlinear_arith);
    assert(c * c >= 0real) by (nonlinear_arith);
    lemma_small_square(a);
    lemma_small_square(b);
    lemma_small_square(c);
}

/// The numerators that are sums or differences of two entries.
proof fn lemma_numerator(p: Binary32, q: Binary32)
    requires
        p.is_finite() && q.is_finite(),
        size(value(p)) <= 11real / 10real,
        size(value(q)) <= 11real / 10real,
    ensures
        near(p.plus(q), value(p) + value(q), 20real * part(1real)),
        near(p.minus(q), value(p) - value(q), 20real * part(1real)),
        size(value(p) + value(q)) <= 5real,
        size(value(p) - value(q)) <= 5real,
{
    law_value_of_sum(p, q);
}

/// The square of the great component, four times.
proof fn lemma_square(i: Binary32, other: Binary32, exact: real)
    requires
        i.is_finite() && other.is_finite(),
        size(value(i)) <= 11real / 10real,
        size(value(other) - exact) <= part(size(exact)),
        size(exact) <= 22real / 10real,
    ensures
        value(i) <= 0real && value(other) <= 0real ==> near(
            Binary32::of(ONE).minus(i).minus(other),
            1real - value(i) - exact,
            4real * part(1real - value(i) - exact),
        ) && 1real <= 1real - value(i) - exact <= 5real,
        value(i) <= 0real && value(other) >= 0real ==> near(
            Binary32::of(ONE).minus(i).plus(other),
            1real - value(i) + exact,
            4real * part(1real - value(i) + exact),
        ) && 1real <= 1real - value(i) + exact <= 5real,
        value(i) >= 0real && value(other) <= 0real ==> near(
            Binary32::of(ONE).plus(i).minus(other),
            1real + value(i) - exact,
            4real * part(1real + value(i) - exact),
        ) && 1real <= 1real + value(i) - exact <= 5real,
        value(i) >= 0real && value(other) >= 0real ==> near(
            Binary32::of(ONE).plus(i).plus(other),
            1real + value(i) + exact,
            4real * part(1real + value(i) + exact),
        ) && 1real <= 1real + value(i) + exact <= 5real,
{
    law_values_of_constants();
    let one = Binary32::of(ONE);
    law_value_of_sum(one, i);
    law_value_of_sum(one.minus(i), other);
    law_value_of_sum(one.plus(i), other);
}

/// A matrix of numbers that is a rotation up to a small error is kept by turning
/// it into a quaternion and back, up to rounding and to five times that error.
pub proof fn law_rotation_is_kept(basis: Mat3, error: real)
    requires
        basis.x_axis.x.is_finite() && basis.x_axis.y.is_finite() && basis.x_axis.z.is_finite(),
        basis.y_axis.x.is_finite() && basis.y_axis.y.is_finite() && basis.y_axis.z.is_finite(),
        basis.z_axis.x.is_finite() && basis.z_axis.y.is_finite() && basis.z_axis.z.is_finite(),
        Nine::of(basis).rotation_within(error),
        error <= 1real / 100real,
    ensures
        all_kept(Quat::from_basis(basis).basis(), Nine::of(basis), error),
{
    let m = Nine::of(basis);
    let zero = Binary32::of(ZERO);
    let (m00, m01, m02) = (basis.x_axis.x, basis.x_axis.y, basis.x_axis.z);
    let (m10, m11, m12) = (basis.y_axis.x, basis.y_axis.y, basis.y_axis.z);
    let (m20, m21, m22) = (basis.z_axis.x, basis.z_axis.y, basis.z_axis.z);
    law_values_of_constants();
    lemma_entries_small(m, error);
    law_order_of_values(m22, zero);
    law_value_of_sum(m11, m00);
    law_order_of_values(m11.minus(m00), zero);
    law_order_of_values(m11.plus(m00), zero);
    lemma_square(m22, m11.minus(m00), m.e - m.a);
    lemma_square(m22, m11.plus(m00), m.e + m.a);
    lemma_numerator(m01, m10);
    lemma_numerator(m02, m20);
    lemma_numerator(m12, m21);
    lemma_numerator(m20, m02);
    let turned = m.turned();
    lemma_turned(m, error);
    lemma_turned(turned, error);
    if m22.le(zero) {
        let rest = Binary32::of(ONE).minus(m22);
        if m11.minus(m00).le(zero) {
            lemma_first_branch(
                rest.minus(m11.minus(m00)),
                m01.plus(m10),
                m02.plus(m20),
                m12.minus(m21),
                m,
                error,
            );
        } else {
            lemma_second_branch(
                rest.plus(m11.minus(m00)),
                m01.plus(m10),
                m12.plus(m21),
                m20.minus(m02),
                m,
                error,
            );
        }
    } else {
        let rest = Binary32::of(ONE).plus(m22);
        if m11.plus(m00).le(zero) {
            lemma_third_branch(
                rest.minus(m11.plus(m00)),
                m02.plus(m20),
                m12.plus(m21),
                m01.minus(m10),
                m,
                error,
            );
        } else {
            lemma_last_branch(
                rest.plus(m11.plus(m00)),
                m12.minus(m21),
                m20.minus(m02),
                m01.minus(m10),
                m,
                error,
            );
        }
    }
}

proof fn lemma_first_branch(
    square: Binary32,
    y: Binary32,
    z: Binary32,
    w: Binary32,
    m: Nine,
    error: real,
)
    requires
        m.rotation_within(error),
        0real <= error <= 1real / 100real,
        1real <= 1real + m.a - m.e - m.i <= 5real,
        near(square, 1real + m.a - m.e - m.i, 4real * part(1real + m.a - m.e - m.i)),
        near(y, m.b + m.d, 20real * part(1real)),
        near(z, m.c + m.g, 20real * part(1real)),
        near(w, m.f - m.h, 20real * part(1real)),
    ensures
        ({
            let share = Binary32::of(HALF).over(square.root());
            let r = Quat {
                x: square.times(share),
                y: y.times(share),
                z: z.times(share),
                w: w.times(share),
            };
            all_kept(r.basis(), m, error)
        }),
{
    lemma_entries_small(m, error);
    let k = 1real + m.a - m.e - m.i;
    let (p, q, s) = (m.b + m.d, m.c + m.g, m.f - m.h);
    lemma_first_products(m, error, k, p, q, s);
    let share = Binary32::of(HALF).over(square.root());
    let t = lemma_share(square, k);
    lemma_component(square, share, k);
    lemma_component(y, share, p);
    lemma_component(z, share, q);
    lemma_component(w, share, s);
    let r = Quat {
        x: square.times(share),
        y: y.times(share),
        z: z.times(share),
        w: w.times(share),
    };
    lemma_doubled(k, m.b, m.d);
    lemma_doubled(k, m.c, m.g);
    lemma_doubled(k, m.f, m.h);
    lemma_basis_kept(r, k, p, q, s, t, k, m, error);
}

/// Twice a product with one of two terms.
proof fn lemma_doubled(k: real, b: real, d: real)
    ensures
        k * (b + d) + k * (b - d) == 2real * (k * b),
        k * (b + d) - k * (b - d) == 2real * (k * d),
        k * (b - d) + k * (b + d) == 2real * (k * b),
        (b + d) * k == k * (b + d),
        (b - d) * k == k * (b - d),
{
    lemma_times_difference(b, d, k);
}

proof fn lemma_swapped(a: real, b: real)
    ensures
        a * b == b * a,
{
    assert(a * b == b * a) by (nonlinear_arith);
}

proof fn lemma_second_branch(
    square: Binary32,
    x: Binary32,
    z: Binary32,
    w: Binary32,
    m: Nine,
    error: real,
)
    requires
        m.rotation_within(error),
        0real <= error <= 1real / 100real,
        1real <= 1real - m.a + m.e - m.i <= 5real,
        near(square, 1real - m.a + m.e - m.i, 4real * part(1real - m.a + m.e - m.i)),
        near(x, m.b + m.d, 20real * part(1real)),
        near(z, m.f + m.h, 20real * part(1real)),
        near(w, m.g - m.c, 20real * part(1real)),
    ensures
        ({
            let share = Binary32::of(HALF).over(square.root());
            let r = Quat {
                x: x.times(share),
                y: square.times(share),
                z: z.times(share),
                w: w.times(share),
            };
            all_kept(r.basis(), m, error)
        }),
{
    lemma_entries_small(m, error);
    lemma_turned(m, error);
    let k = 1real - m.a + m.e - m.i;
    let (p, q, s) = (m.b + m.d, m.f + m.h, m.g - m.c);
    lemma_first_products(m.turned(), error, k, q, p, s);
    lemma_swapped(p, q);
    lemma_swapped(p, k);
    let share = Binary32::of(HALF).over(square.root());
    let t = lemma_share(square, k);
    lemma_component(square, share, k);
    lemma_component(x, share, p);
    lemma_component(z, share, q);
    lemma_component(w, share, s);
    let r = Quat {
        x: x.times(share),
        y: square.times(share),
        z: z.times(share),
        w: w.times(share),
    };
    lemma_doubled(k, m.b, m.d);
    lemma_doubled(k, m.g, m.c);
    lemma_doubled(k, m.f, m.h);
    lemma_doubled(k, m.d, m.b);
    lemma_basis_kept(r, p, k, q, s, t, k, m, error);
}

proof fn lemma_third_branch(
    square: Binary32,
    x: Binary32,
    y: Binary32,
    w: Binary32,
    m: Nine,
    error: real,
)
    requires
        m.rotation_within(error),
        0real <= error <= 1real / 100real,
        1real <= 1real - m.a - m.e + m.i <= 5real,
        near(square, 1real - m.a - m.e + m.i, 4real * part(1real - m.a - m.e + m.i)),
        near(x, m.c + m.g, 20real * part(1real)),
        near(y, m.f + m.h, 20real * part(1real)),
        near(w, m.b - m.d, 20real * part(1real)),
    ensures
        ({
            let share = Binary32::of(HALF).over(square.root());
            let r = Quat {
                x: x.times(share),
                y: y.times(share),
                z: square.times(share),
                w: w.times(share),
            };
            all_kept(r.basis(), m, error)
        }),
{
    lemma_entries_small(m, error);
    lemma_turned(m, error);
    lemma_turned(m.turned(), error);
    let k = 1real - m.a - m.e + m.i;
    let (p, q, s) = (m.c + m.g, m.f + m.h, m.b - m.d);
    lemma_first_products(m.turned().turned(), error, k, p, q, s);
    lemma_swapped(p, q);
    lemma_swapped(p, k);
    lemma_swapped(q, k);
    let share = Binary32::of(HALF).over(square.root());
    let t = lemma_share(square, k);
    lemma_component(square, share, k);
    lemma_component(x, share, p);
    lemma_component(y, share, q);
    lemma_component(w, share, s);
    let r = Quat {
        x: x.times(share),
        y: y.times(share),
        z: square.times(share),
        w: w.times(share),
    };
    lemma_doubled(k, m.b, m.d);
    lemma_doubled(k, m.g, m.c);
    lemma_doubled(k, m.f, m.h);
    lemma_doubled(k, m.h, m.f);
    lemma_doubled(k, m.c, m.g);
    lemma_basis_kept(r, p, q, k, s, t, k, m, error);
}

proof fn lemma_last_branch(
    square: Binary32,
    x: Binary32,
    y: Binary32,
    z: Binary32,
    m: Nine,
    error: real,
)
    requires
        m.rotation_within(error),
        0real <= error <= 1real / 100real,
        1real <= 1real + m.a + m.e + m.i <= 5real,
        near(square, 1real + m.a + m.e + m.i, 4real * part(1real + m.a + m.e + m.i)),
        near(x, m.f - m.h, 20real * part(1real)),
        near(y, m.g - m.c, 20real * part(1real)),
        near(z, m.b - m.d, 20real * part(1real)),
    ensures
        ({
            let share = Binary32::of(HALF).over(square.root());
            let r = Quat {
                x: x.times(share),
                y: y.times(share),
                z: z.times(share),
                w: square.times(share),
            };
            all_kept(r.basis(), m, error)
        }),
{
    lemma_entries_small(m, error);
    lemma_turned(m, error);
    lemma_turned(m.turned(), error);
    let k = 1real + m.a + m.e + m.i;
    let (p, q, s) = (m.f - m.h, m.g - m.c, m.b - m.d);
    lemma_last_products(m, error, k, p, q, s);
    lemma_last_products(m.turned(), error, k, q, s, p);
    lemma_last_products(m.turned().turned(), error, k, s, p, q);
    lemma_swapped(p, s);
    lemma_swapped(q, s);
    lemma_swapped(p, q);
    let share = Binary32::of(HALF).over(square.root());
    let t = lemma_share(square, k);
    lemma_component(square, share, k);
    lemma_component(x, share, p);
    lemma_component(y, share, q);
    lemma_component(z, share, s);
    let r = Quat {
        x: x.times(share),
        y: y.times(share),
        z: z.times(share),
        w: square.times(share),
    };
    lemma_doubled(k, m.b, m.d);
    lemma_doubled(k, m.g, m.c);
    lemma_doubled(k, m.f, m.h);
    lemma_basis_kept(r, p, q, s, k, t, k, m, error);
}

/// The cross product of a cross product with one of its factors.
proof fn lemma_crossed_twice(a: real, b: real, c: real, g: real, h: real, i: real)
    ensures
        (i * a - g * c) * i - (g * b - h * a) * h == a * (g * g + h * h + i * i) - g * (g * a + h * b + i
            * c),
{
    lemma_times_difference(i * a, g * c, i);
    lemma_times_difference(g * b, h * a, h);
    lemma_times_three(g * g, h * h, i * i, a);
    lemma_times_three(g * a, h * b, i * c, g);
    lemma_product_of_three(i, a, i);
    lemma_product_of_three(g, c, i);
    lemma_product_of_three(i, c, g);
    lemma_product_of_three(g, b, h);
    lemma_product_of_three(h, b, g);
    lemma_product_of_three(h, a, h);
    lemma_product_of_three(g, a, g);
}

/// One coordinate of an axis that is the cross product of the other two.
proof fn lemma_cofactor(
    a: real,
    b: real,
    c: real,
    g: real,
    h: real,
    i: real,
    e: real,
    f: real,
    off: real,
    error: real,
)
    requires
        size(a) <= 11real / 10real && size(g) <= 11real / 10real,
        size(h) <= 11real / 10real && size(i) <= 11real / 10real,
        size(e - (i * a - g * c)) <= off,
        size(f - (g * b - h * a)) <= off,
        size(g * g + h * h + i * i - 1real) <= error,
        size(g * a + h * b + i * c) <= error,
    ensures
        size(a - (e * i - f * h)) <= 3real * off + 3real * error,
{
    let (p, q) = (i * a - g * c, g * b - h * a);
    let (s, t) = (g * g + h * h + i * i, g * a + h * b + i * c);
    lemma_crossed_twice(a, b, c, g, h, i);
    lemma_product_size(e - p, i, off, 11real / 10real);
    lemma_product_size(f - q, h, off, 11real / 10real);
    lemma_product_size(s - 1real, a, error, 11real / 10real);
    lemma_product_size(t, g, error, 11real / 10real);
    lemma_times_difference(e, p, i);
    lemma_times_difference(f, q, h);
    lemma_times_difference(s, 1real, a);
    assert(off * (11real / 10real) == 11real * off / 10real) by (nonlinear_arith);
    assert(error * (11real / 10real) == 11real * error / 10real) by (nonlinear_arith);
}

/// Whether the rows of a matrix are unit vectors at right angles.
spec fn rows_within(m: Nine, error: real) -> bool {
    let (a, b, c) = (m.a, m.b, m.c);
    let (d, e, f) = (m.d, m.e, m.f);
    let (g, h, i) = (m.g, m.h, m.i);
    &&& size(a * a + b * b + c * c - 1real) <= error
    &&& size(d * d + e * e + f * f - 1real) <= error
    &&& size(g * g + h * h + i * i - 1real) <= error
    &&& size(a * d + b * e + c * f) <= error
    &&& size(d * g + e * h + f * i) <= error
    &&& size(g * a + h * b + i * c) <= error
}

/// Where the second axis is the cross product of the third and the first one,
/// each is that of the other two.
proof fn lemma_all_cofactors(m: Nine, off: real, error: real)
    requires
        rows_within(m, error),
        error <= 1real / 100real,
        0real <= off,
        size(m.d - (m.h * m.c - m.i * m.b)) <= off,
        size(m.e - (m.i * m.a - m.g * m.c)) <= off,
        size(m.f - (m.g * m.b - m.h * m.a)) <= off,
    ensures
        m.right_handed_within(3real * off + 3real * error),
{
    let (a, b, c, d, e, f, g, h, i) = (m.a, m.b, m.c, m.d, m.e, m.f, m.g, m.h, m.i);
    lemma_row_small(a, b, c);
    lemma_row_small(d, e, f);
    lemma_row_small(g, h, i);
    lemma_swapped(a, h);
    lemma_swapped(a, i);
    lemma_swapped(b, g);
    lemma_swapped(b, i);
    lemma_swapped(c, g);
    lemma_swapped(c, h);
    lemma_swapped(a, g);
    lemma_swapped(b, h);
    lemma_swapped(c, i);
    lemma_cofactor(a, b, c, g, h, i, e, f, off, error);
    lemma_cofactor(b, c, a, h, i, g, f, d, off, error);
    lemma_cofactor(c, a, b, i, g, h, d, e, off, error);
    lemma_cofactor(g, h, i, a, b, c, -e, -f, off, error);
    lemma_cofactor(h, i, g, b, c, a, -f, -d, off, error);
    lemma_cofactor(i, g, h, c, a, b, -d, -e, off, error);
    lemma_negated(e, c);
    lemma_negated(f, b);
    lemma_negated(f, a);
    lemma_negated(d, c);
    lemma_negated(d, b);
    lemma_negated(e, a);
}

/// The first column of a matrix whose rows are the cross products of each other.
proof fn lemma_first_column(m: Nine, off: real, error: real)
    requires
        m.right_handed_within(off),
        size(m.a * m.a + m.b * m.b + m.c * m.c - 1real) <= error,
        size(m.a) <= 11real / 10real && size(m.b) <= 11real / 10real && size(m.c) <= 11real / 10real,
        size(m.d) <= 11real / 10real && size(m.g) <= 11real / 10real,
        0real <= off,
    ensures
        size(m.a * m.a + m.d * m.d + m.g * m.g - 1real) <= error + 7real * off,
        size(m.a * m.b + m.d * m.e + m.g * m.h) <= 4real * off,
{
    let (a, b, c, d, e, f, g, h, i) = (m.a, m.b, m.c, m.d, m.e, m.f, m.g, m.h, m.i);
    let (p, q, r) = (e * i - f * h, f * g - d * i, d * h - e * g);
    let (s, t) = (h * c - i * b, b * f - c * e);
    let (u, v) = (i * a - g * c, c * d - a * f);
    lemma_near_product(a, a, p, off);
    lemma_near_product(b, b, q, off);
    lemma_near_product(c, c, r, off);
    lemma_near_product(d, d, s, off);
    lemma_near_product(g, g, t, off);
    lemma_near_product(a, b, q, off);
    lemma_near_product(d, e, u, off);
    lemma_near_product(g, h, v, off);
    lemma_times_pair(b, f * g, d * i);
    lemma_times_pair(c, d * h, e * g);
    lemma_times_pair(d, h * c, i * b);
    lemma_times_pair(g, b * f, c * e);
    lemma_times_pair(a, f * g, d * i);
    lemma_times_pair(d, i * a, g * c);
    lemma_times_pair(g, c * d, a * f);
    lemma_moved(b, f, g);
    lemma_moved(b, d, i);
    lemma_moved(c, d, h);
    lemma_moved(c, e, g);
    lemma_moved(d, h, c);
    lemma_moved(d, i, b);
    lemma_moved(g, b, f);
    lemma_moved(g, c, e);
    lemma_moved(a, f, g);
    lemma_moved(a, d, i);
    lemma_moved(d, i, a);
    lemma_moved(d, g, c);
    lemma_moved(g, c, d);
    lemma_moved(g, a, f);
}

proof fn lemma_moved(a: real, b: real, c: real)
    ensures
        a * (b * c) == b * (c * a),
        a * (b * c) == c * (a * b),
        a * (b * c) == b * (a * c),
        a * (b * c) == c * (b * a),
{
    assert(a * (b * c) == b * (c * a)) by (nonlinear_arith);
    assert(a * (b * c) == c * (a * b)) by (nonlinear_arith);
    assert(a * (b * c) == b * (a * c)) by (nonlinear_arith);
    assert(a * (b * c) == c * (b * a)) by (nonlinear_arith);
}

proof fn lemma_near_product(x: real, y: real, z: real, off: real)
    requires
        size(x) <= 11real / 10real,
        size(y - z) <= off,
    ensures
        size(x * y - x * z) <= 11real * off / 10real,
{
    lemma_product_size(x, y - z, 11real / 10real, off);
    lemma_times_pair(x, y, z);
    assert((11real / 10real) * off == 11real * off / 10real) by (nonlinear_arith);
}

/// Rows that are unit vectors at right angles, and cross products of each other,
/// are those of a rotation.
proof fn lemma_rows_make_a_rotation(m: Nine, off: real, error: real)
    requires
        rows_within(m, error),
        m.right_handed_within(off),
        0real <= off,
        0real <= error <= 1real / 100real,
    ensures
        m.rotation_within(error + 7real * off),
{
    lemma_row_small(m.a, m.b, m.c);
    lemma_row_small(m.d, m.e, m.f);
    lemma_row_small(m.g, m.h, m.i);
    lemma_first_column(m, off, error);
    lemma_first_column(m.turned(), off, error);
    lemma_first_column(m.turned().turned(), off, error);
}

/// How close a factor between two nearly unit vectors is to one.
proof fn lemma_factor_is_nearly_one(q: real, whole: real, least: real)
    requires
        0real < q <= 4real / 3real,
        q * q * least <= 1real + 1real / 65536real,
        least >= 1real - 1real / 131072real,
        q * q * whole >= 1real - 1real / 90000real,
        0real < whole <= 1real + 1real / 200000real,
    ensures
        size(q - 1real) <= 1real / 80000real,
{
    assert(q <= 1real + 1real / 80000real) by (nonlinear_arith)
        requires
            0real < q,
            (q * q) * least <= 1real + 1real / 65536real,
            least >= 1real - 1real / 131072real,
    ;
    assert(q >= 1real - 1real / 80000real) by (nonlinear_arith)
        requires
            0real < q,
            (q * q) * whole >= 1real - 1real / 90000real,
            0real < whole <= 1real + 1real / 200000real,
    ;
}

/// The square of a coordinate that follows another one.
proof fn lemma_followed_square(y: real, c: real, q: real)
    requires
        0real < q <= 4real / 3real,
        size(c) <= 11real / 10real,
        size(y - q * c) <= 1real / 1048576real,
    ensures
        y * y <= (q * q) * (c * c) + 19real / 6291456real,
{
    let p = q * c;
    let d = y - p;
    lemma_product_size(q, c, 4real / 3real, 11real / 10real);
    assert((4real / 3real) * (11real / 10real) == 22real / 15real) by (nonlinear_arith);
    lemma_product_size(d, p, 1real / 1048576real, 22real / 15real);
    lemma_product_size(d, d, 1real / 1048576real, 1real / 1048576real);
    assert((1real / 1048576real) * (22real / 15real) == 22real / 15728640real) by (nonlinear_arith);
    assert((1real / 1048576real) * (1real / 1048576real) <= 1real / 10000000real)
        by (nonlinear_arith);
    assert(y * y == p * p + 2real * (d * p) + d * d) by (nonlinear_arith)
        requires
            y == p + d,
    ;
    assert(p * p == (q * q) * (c * c)) by (nonlinear_arith)
        requires
            p == q * c,
    ;
}

proof fn lemma_followed_coordinate(y: real, c: real, q: real)
    requires
        size(q - 1real) <= 1real / 80000real,
        size(c) <= 11real / 10real,
        size(y - q * c) <= 1real / 1048576real,
    ensures
        size(y - c) <= 1real / 65000real,
{
    lemma_product_size(q - 1real, c, 1real / 80000real, 11real / 10real);
    assert((1real / 80000real) * (11real / 10real) == 11real / 800000real) by (nonlinear_arith);
    lemma_times_difference(q, 1real, c);
}

/// The principal axes, made of a first and a third one, are those of a rotation.
pub(crate) proof fn lemma_axes_are_a_rotation(x: Vec3, third: Vec3)
    requires
        nearly_unit(x),
        nearly_unit(third),
        nearly_across(third, x),
    ensures
        Nine::of(Mat3::from_cols(x, third.cross(x).normalize(), third)).rotation_within(
            1real / 2400real,
        ),
{
    lemma_nearly_unit_coordinates(x);
    lemma_nearly_unit_coordinates(third);
    let q = lemma_cross_normalized(third, x);
    let y = third.cross(x).normalize();
    let m = Nine::of(Mat3::from_cols(x, y, third));
    let (a, b, c, d, e, f, g, h, i) = (m.a, m.b, m.c, m.d, m.e, m.f, m.g, m.h, m.i);
    let (p, r, s) = exact_cross(third, x);
    lemma_lengths_and_products(g, h, i, a, b, c);
    let whole = p * p + r * r + s * s;
    let (u, v, w) = (exact_dot(third, third), exact_dot(x, x), exact_dot(third, x));
    assert(u * v == w * w + whole);
    assert(u * v <= 1real + 1real / 200000real) by (nonlinear_arith)
        requires
            0real <= u <= 1real + 1real / 524288real,
            0real <= v <= 1real + 1real / 524288real,
    ;
    assert(w * w >= 0real) by (nonlinear_arith);
    lemma_square_size(w, 1real / 262144real);
    assert((1real / 262144real) * (1real / 262144real) <= 1real / 1000000real) by (nonlinear_arith);
    assert(u * v >= 1real - 1real / 200000real) by (nonlinear_arith)
        requires
            u >= 1real - 1real / 524288real,
            v >= 1real - 1real / 524288real,
    ;
    lemma_row_small(p, r, s);
    lemma_followed_square(d, p, q);
    lemma_followed_square(e, r, q);
    lemma_followed_square(f, s, q);
    let k = q * q;
    lemma_times_three(p * p, r * r, s * s, k);
    lemma_swapped(k, p * p);
    lemma_swapped(k, r * r);
    lemma_swapped(k, s * s);
    lemma_swapped(k, whole);
    assert(k * whole >= 1real - 1real / 90000real);
    lemma_factor_is_nearly_one(q, whole, (1real - 1real / 262144real) - w * w);
    lemma_followed_coordinate(d, p, q);
    lemma_followed_coordinate(e, r, q);
    lemma_followed_coordinate(f, s, q);
    lemma_swapped(b, i);
    lemma_swapped(c, g);
    lemma_swapped(a, h);
    let error = 1real / 262144real;
    assert(rows_within(m, error));
    lemma_all_cofactors(m, 1real / 65000real, error);
    let off = 3real * (1real / 65000real) + 3real * error;
    lemma_rows_make_a_rotation(m, off, error);
    lemma_looser_rotation(m, error + 7real * off, 1real / 2400real);
}

proof fn lemma_square_is_near(c: real, r: real)
    requires
        size(c) <= 11real / 10real,
        size(r - c) <= 8real * part(1real),
    ensures
        size(r * r - c * c) <= 19real * part(1real),
{
    let d = r - c;
    lemma_product_size(d, c, 8real * part(1real), 11real / 10real);
    lemma_product_size(d, d, 1real / 2097152real, 1real / 2097152real);
    assert((8real * part(1real)) * (11real / 10real) == 44real * part(1real) / 5real)
        by (nonlinear_arith);
    assert((1real / 2097152real) * (1real / 2097152real) <= 1real / 1000000000000real)
        by (nonlinear_arith);
    assert(r * r == c * c + 2real * (d * c) + d * d) by (nonlinear_arith)
        requires
            r == c + d,
    ;
}

/// Two unit vectors at right angles and their cross product are the axes of a
/// rotation.
pub(crate) proof fn lemma_cross_completes_a_rotation(x: Vec3, y: Vec3)
    requires
        nearly_unit(x),
        nearly_unit(y),
        nearly_across(x, y),
    ensures
        Nine::of(Mat3::from_cols(x, y, x.cross(y))).rotation_within(1real / 2400real),
{
    lemma_nearly_unit_coordinates(x);
    lemma_nearly_unit_coordinates(y);
    let z = x.cross(y);
    let m = Nine::of(Mat3::from_cols(x, y, z));
    let (a, b, c, d, e, f, g, h, i) = (m.a, m.b, m.c, m.d, m.e, m.f, m.g, m.h, m.i);
    let (p, r, s) = exact_cross(x, y);
    lemma_cross_coordinate(x.y, y.z, y.y, x.z);
    lemma_cross_coordinate(x.z, y.x, y.z, x.x);
    lemma_cross_coordinate(x.x, y.y, y.x, x.y);
    lemma_lengths_and_products(a, b, c, d, e, f);
    let whole = p * p + r * r + s * s;
    let (u, v, w) = (exact_dot(x, x), exact_dot(y, y), exact_dot(x, y));
    assert(u * v == w * w + whole);
    assert(u * v <= 1real + 1real / 200000real) by (nonlinear_arith)
        requires
            0real <= u <= 1real + 1real / 524288real,
            0real <= v <= 1real + 1real / 524288real,
    ;
    assert(u * v >= 1real - 1real / 200000real) by (nonlinear_arith)
        requires
            u >= 1real - 1real / 524288real,
            v >= 1real - 1real / 524288real,
    ;
    lemma_square_size(w, 1real / 262144real);
    assert((1real / 262144real) * (1real / 262144real) <= 1real / 10000000real)
        by (nonlinear_arith);
    lemma_row_small(p, r, s);
    lemma_square_is_near(p, g);
    lemma_square_is_near(r, h);
    lemma_square_is_near(s, i);
    lemma_cross_is_across(a, b, c, d, e, f);
    lemma_three_sizes(g - p, h - r, i - s, a, b, c, 8real * part(1real), 11real / 10real);
    lemma_three_sizes(g - p, h - r, i - s, d, e, f, 8real * part(1real), 11real / 10real);
    assert((8real * part(1real)) * (11real / 10real) <= 9real * part(1real)) by (nonlinear_arith);
    lemma_times_difference(g, p, a);
    lemma_times_difference(h, r, b);
    lemma_times_difference(i, s, c);
    lemma_times_difference(g, p, d);
    lemma_times_difference(h, r, e);
    lemma_times_difference(i, s, f);
    lemma_swapped(a, f);
    lemma_swapped(b, d);
    lemma_swapped(c, e);
    lemma_swapped(d, g);
    lemma_swapped(e, h);
    lemma_swapped(f, i);
    let error = 1real / 80000real;
    let turned = m.turned();
    assert(rows_within(turned, error));
    lemma_all_cofactors(turned, 1real / 2000000real, error);
    let off = 3real * (1real / 2000000real) + 3real * error;
    lemma_rows_make_a_rotation(turned, off, error);
    lemma_turned(turned, error + 7real * off);
    lemma_turned(turned.turned(), error + 7real * off);
    assert(turned.turned().turned() == m);
    lemma_looser_rotation(m, error + 7real * off, 1real / 2400real);
}

proof fn lemma_looser_rotation(m: Nine, error: real, more: real)
    requires
        m.rotation_within(error),
        error <= more,
    ensures
        m.rotation_within(more),
{
}

} // verus!
