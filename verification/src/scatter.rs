//! The direction in which corners scatter most.
//!
//! A symmetric matrix that shortens no component of a vector to the other side
//! stretches the vector that is refined more and more. The statements here are
//! about the exact values of the matrix and of the direction that is found.
use crate::axes::lemma_thresholds;
use crate::binary32::Binary32;
use crate::directions::{
    exact_dot, law_value_of_dot, lemma_image_coordinates, lemma_lengths_and_products,
    lemma_nearly_unit_coordinates, lemma_normalize, lemma_product_of_three, lemma_product_size,
    lemma_square_size, lemma_three_products, lemma_three_sizes,
    lemma_times_difference, lemma_times_three, lemma_within, nearly_unit,
};
use crate::fitting::{refined, NO_DIRECTION};
use crate::value::{
    law_order_of_values, lemma_bounded_value, lemma_one_in_units, near, part, size, unit, value,
};
use crate::vector::{Mat3, Vec3};
use vstd::arithmetic::power2::{lemma2_to64, lemma2_to64_rest, pow2};
use vstd::prelude::*;

verus! {

/// A vector of real numbers.
pub struct Three {
    pub x: real,
    pub y: real,
    pub z: real,
}

impl Three {
    /// The exact coordinates of a vector.
    pub open spec fn of(v: Vec3) -> Three {
        Three { x: value(v.x), y: value(v.y), z: value(v.z) }
    }

    pub open spec fn dot(self, other: Three) -> real {
        self.x * other.x + self.y * other.y + self.z * other.z
    }

    pub open spec fn plus(self, other: Three) -> Three {
        Three { x: self.x + other.x, y: self.y + other.y, z: self.z + other.z }
    }

    pub open spec fn minus(self, other: Three) -> Three {
        Three { x: self.x - other.x, y: self.y - other.y, z: self.z - other.z }
    }

    pub open spec fn scaled(self, factor: real) -> Three {
        Three { x: factor * self.x, y: factor * self.y, z: factor * self.z }
    }

    /// Whether no coordinate is greater than a bound.
    pub open spec fn within(self, bound: real) -> bool {
        size(self.x) <= bound && size(self.y) <= bound && size(self.z) <= bound
    }
}

/// A symmetric matrix of real numbers: its first row, the rest of its second,
/// and the last entry of its third.
pub struct Six {
    pub a: real,
    pub b: real,
    pub c: real,
    pub d: real,
    pub e: real,
    pub f: real,
}

impl Six {
    /// The exact entries of a symmetric matrix.
    pub open spec fn of(m: Mat3) -> Six {
        Six {
            a: value(m.x_axis.x),
            b: value(m.x_axis.y),
            c: value(m.x_axis.z),
            d: value(m.y_axis.y),
            e: value(m.y_axis.z),
            f: value(m.z_axis.z),
        }
    }

    pub open spec fn plus(self, other: Six) -> Six {
        Six {
            a: self.a + other.a,
            b: self.b + other.b,
            c: self.c + other.c,
            d: self.d + other.d,
            e: self.e + other.e,
            f: self.f + other.f,
        }
    }

    /// The exact image of a vector.
    pub open spec fn image(self, u: Three) -> Three {
        Three {
            x: self.a * u.x + self.b * u.y + self.c * u.z,
            y: self.b * u.x + self.d * u.y + self.e * u.z,
            z: self.c * u.x + self.e * u.y + self.f * u.z,
        }
    }

    /// How far the image of a unit vector goes along that vector: for the
    /// matrix by which corners scatter, the mean square of their way from the
    /// mean in that direction.
    pub open spec fn stretch(self, u: Three) -> real {
        u.dot(self.image(u))
    }

    /// Whether no entry is greater than a bound.
    pub open spec fn within(self, bound: real) -> bool {
        &&& size(self.a) <= bound && size(self.b) <= bound && size(self.c) <= bound
        &&& size(self.d) <= bound && size(self.e) <= bound && size(self.f) <= bound
    }

    /// Whether no vector is turned to the other side, up to some slack.
    pub open spec fn keeps_side(self, slack: real) -> bool {
        forall|u: Three| #[trigger] self.stretch(u) >= -(slack * u.dot(u))
    }

    /// Whether the image of a vector is no longer than some number.
    pub open spec fn reaches(self, u: Three, length: real) -> bool {
        length >= 0real && self.image(u).dot(self.image(u)) <= length * length
    }
}

/// Whether a matrix is finite and symmetric.
pub open spec fn symmetric(m: Mat3) -> bool {
    &&& m.x_axis.x.is_finite() && m.x_axis.y.is_finite() && m.x_axis.z.is_finite()
    &&& m.y_axis.y.is_finite() && m.y_axis.z.is_finite() && m.z_axis.z.is_finite()
    &&& m.x_axis.y == m.y_axis.x
    &&& m.x_axis.z == m.z_axis.x
    &&& m.y_axis.z == m.z_axis.y
}

proof fn lemma_turned(a: real, b: real)
    ensures
        a * b == b * a,
{
    assert(a * b == b * a) by (nonlinear_arith);
}

pub(crate) proof fn lemma_dot_turned(u: Three, v: Three)
    ensures
        u.dot(v) == v.dot(u),
{
    lemma_turned(u.x, v.x);
    lemma_turned(u.y, v.y);
    lemma_turned(u.z, v.z);
}

pub(crate) proof fn lemma_dot_of_difference(u: Three, v: Three, w: Three)
    ensures
        u.minus(v).dot(w) == u.dot(w) - v.dot(w),
        w.dot(u.minus(v)) == w.dot(u) - w.dot(v),
        u.dot(w) == w.dot(u),
{
    lemma_times_difference(u.x, v.x, w.x);
    lemma_times_difference(u.y, v.y, w.y);
    lemma_times_difference(u.z, v.z, w.z);
    lemma_dot_turned(u, w);
    lemma_dot_turned(v, w);
    lemma_dot_turned(u.minus(v), w);
}

proof fn lemma_image_of_difference(m: Six, u: Three, v: Three)
    ensures
        m.image(u.minus(v)) == m.image(u).minus(m.image(v)),
{
    lemma_dot_of_difference(u, v, Three { x: m.a, y: m.b, z: m.c });
    lemma_dot_of_difference(u, v, Three { x: m.b, y: m.d, z: m.e });
    lemma_dot_of_difference(u, v, Three { x: m.c, y: m.e, z: m.f });
}

/// A symmetric matrix relates two vectors in the same way either way round.
proof fn lemma_both_ways(m: Six, u: Three, v: Three)
    ensures
        u.dot(m.image(v)) == v.dot(m.image(u)),
{
    lemma_dot_turned(u, m.image(v));
    lemma_dot_turned(v, m.image(u));
    lemma_times_three(m.a * v.x, m.b * v.y, m.c * v.z, u.x);
    lemma_times_three(m.b * v.x, m.d * v.y, m.e * v.z, u.y);
    lemma_times_three(m.c * v.x, m.e * v.y, m.f * v.z, u.z);
    lemma_times_three(m.a * u.x, m.b * u.y, m.c * u.z, v.x);
    lemma_times_three(m.b * u.x, m.d * u.y, m.e * u.z, v.y);
    lemma_times_three(m.c * u.x, m.e * u.y, m.f * u.z, v.z);
    lemma_product_of_three(m.a, v.x, u.x);
    lemma_product_of_three(m.b, v.y, u.x);
    lemma_product_of_three(m.c, v.z, u.x);
    lemma_product_of_three(m.b, v.x, u.y);
    lemma_product_of_three(m.d, v.y, u.y);
    lemma_product_of_three(m.e, v.z, u.y);
    lemma_product_of_three(m.c, v.x, u.z);
    lemma_product_of_three(m.e, v.y, u.z);
    lemma_product_of_three(m.f, v.z, u.z);
}

/// How a difference is stretched.
proof fn lemma_stretch_of_difference(m: Six, u: Three, v: Three)
    ensures
        m.stretch(u.minus(v)) == m.stretch(u) - 2real * u.dot(m.image(v)) + m.stretch(v),
{
    let (p, q) = (m.image(u), m.image(v));
    lemma_image_of_difference(m, u, v);
    lemma_dot_of_difference(u, v, p.minus(q));
    lemma_dot_of_difference(p, q, u);
    lemma_dot_of_difference(p, q, v);
    lemma_both_ways(m, u, v);
}

pub(crate) proof fn lemma_dot_within(u: Three, v: Three, m: real, n: real)
    requires
        u.within(m),
        v.within(n),
    ensures
        size(u.dot(v)) <= 3real * (m * n),
{
    lemma_three_sizes(u.x, u.y, u.z, v.x, v.y, v.z, m, n);
}

pub(crate) proof fn lemma_image_within(m: Six, u: Three, bound: real, most: real)
    requires
        m.within(bound),
        u.within(most),
    ensures
        m.image(u).within(3real * (bound * most)),
{
    lemma_three_sizes(m.a, m.b, m.c, u.x, u.y, u.z, bound, most);
    lemma_three_sizes(m.b, m.d, m.e, u.x, u.y, u.z, bound, most);
    lemma_three_sizes(m.c, m.e, m.f, u.x, u.y, u.z, bound, most);
}

/// A vector that is moved a little is stretched nearly as much.
#[verifier::rlimit(50)]
proof fn lemma_stretch_of_moved(m: Six, u: Three, w: Three, bound: real)
    requires
        m.within(bound),
        u.within(3real / 2real),
        w.minus(u).within(2real * part(1real)),
        bound >= 0real,
    ensures
        m.stretch(w) >= m.stretch(u) - 60real * part(bound),
{
    let off = w.minus(u);
    lemma_within(u.x, w.x, 3real / 2real, 2real * part(1real));
    lemma_within(u.y, w.y, 3real / 2real, 2real * part(1real));
    lemma_within(u.z, w.z, 3real / 2real, 2real * part(1real));
    assert(w.within(16real / 10real));
    let (p, q) = (m.image(u), m.image(w));
    lemma_image_within(m, u, bound, 3real / 2real);
    lemma_image_within(m, w, bound, 16real / 10real);
    assert(bound * (3real / 2real) == 3real * bound / 2real) by (nonlinear_arith);
    assert(bound * (16real / 10real) == 16real * bound / 10real) by (nonlinear_arith);
    lemma_dot_within(off, p, 2real * part(1real), 9real * bound / 2real);
    lemma_dot_within(off, q, 2real * part(1real), 48real * bound / 10real);
    assert((2real * part(1real)) * (9real * bound / 2real) == 9real * part(bound))
        by (nonlinear_arith);
    assert((2real * part(1real)) * (48real * bound / 10real) == 96real * part(bound) / 10real)
        by (nonlinear_arith);
    lemma_dot_of_difference(w, u, q);
    lemma_dot_of_difference(w, u, p);
    lemma_both_ways(m, w, u);
    assert(m.stretch(w) - m.stretch(u) == off.dot(q) + off.dot(p));
}

/// Products of the exact lengths.
pub(crate) proof fn lemma_scaled_dots(q: real, z: Three, v: Three)
    ensures
        z.scaled(q).dot(v) == q * z.dot(v),
        v.dot(z.scaled(q)) == q * v.dot(z),
        z.scaled(q).dot(z.scaled(q)) == (q * q) * z.dot(z),
{
    lemma_scaled_product(q, z.x, v.x);
    lemma_scaled_product(q, z.y, v.y);
    lemma_scaled_product(q, z.z, v.z);
    lemma_times_three(z.x * v.x, z.y * v.y, z.z * v.z, q);
    lemma_dot_turned(z, v);
    lemma_dot_turned(z.scaled(q), v);
    lemma_turned(q, z.dot(v));
    lemma_turned(q * q, z.dot(z));
    lemma_scaled_square(q, z.x);
    lemma_scaled_square(q, z.y);
    lemma_scaled_square(q, z.z);
    lemma_times_three(z.x * z.x, z.y * z.y, z.z * z.z, q * q);
}

proof fn lemma_scaled_product(q: real, x: real, y: real)
    ensures
        (q * x) * y == (x * y) * q,
        y * (q * x) == (y * x) * q,
{
    assert((q * x) * y == (x * y) * q) by (nonlinear_arith);
    assert(y * (q * x) == (y * x) * q) by (nonlinear_arith);
}

proof fn lemma_scaled_square(q: real, x: real)
    ensures
        (q * x) * (q * x) == (x * x) * (q * q),
{
    assert((q * x) * (q * x) == (x * x) * (q * q)) by (nonlinear_arith);
}

pub(crate) proof fn lemma_mean_of_lengths(u: Three, v: Three)
    ensures
        2real * u.dot(v) <= u.dot(u) + v.dot(v),
        u.minus(v).dot(u.minus(v)) <= 2real * (u.dot(u) + v.dot(v)),
        u.minus(v).dot(u.minus(v)) >= 0real,
{
    lemma_mean_of_squares(u.x, v.x);
    lemma_mean_of_squares(u.y, v.y);
    lemma_mean_of_squares(u.z, v.z);
}

proof fn lemma_mean_of_squares(x: real, y: real)
    ensures
        2real * (x * y) <= x * x + y * y,
        (x - y) * (x - y) <= 2real * (x * x + y * y),
        (x - y) * (x - y) >= 0real,
{
    assert(2real * (x * y) <= x * x + y * y) by (nonlinear_arith);
    assert((x - y) * (x - y) <= 2real * (x * x + y * y)) by (nonlinear_arith);
    assert((x - y) * (x - y) >= 0real) by (nonlinear_arith);
}

/// The factor that makes a vector one of unit length, and the length itself.
pub(crate) proof fn lemma_length(q: real, square: real) -> (rho: real)
    requires
        q > 0real,
        size((q * q) * square - 1real) <= 16real * part(1real),
    ensures
        rho > 0real,
        q * rho == 1real,
        q * square >= rho - 16real * part(rho),
        square <= rho * rho + rho * (16real * part(rho)),
        square >= rho * rho - rho * (16real * part(rho)),
{
    let rho = 1real / q;
    let g = (q * q) * square;
    assert(q * rho == 1real && rho > 0real) by (nonlinear_arith)
        requires
            rho == 1real / q,
            q > 0real,
    ;
    let d = q * square;
    assert(q * d == g) by (nonlinear_arith)
        requires
            d == q * square,
            g == (q * q) * square,
    ;
    lemma_undone(q, rho, d);
    lemma_undone(q, rho, square);
    assert(g * rho == d);
    assert(d * rho == square);
    assert(d >= rho - 16real * part(rho) && d <= rho + 16real * part(rho)) by (nonlinear_arith)
        requires
            d == g * rho,
            rho > 0real,
            1real - 16real * part(1real) <= g <= 1real + 16real * part(1real),
    ;
    let off = 16real * part(rho);
    assert(d * rho <= rho * rho + rho * off && d * rho >= rho * rho - rho * off)
        by (nonlinear_arith)
        requires
            rho - off <= d <= rho + off,
            rho > 0real,
    ;
    rho
}

proof fn lemma_undone(q: real, rho: real, x: real)
    requires
        q * rho == 1real,
    ensures
        (q * x) * rho == x,
        rho * (q * x) == x,
{
    assert((q * x) * rho == x) by (nonlinear_arith)
        requires
            q * rho == 1real,
    ;
    assert(rho * (q * x) == x) by (nonlinear_arith)
        requires
            q * rho == 1real,
    ;
}

/// The image of a unit vector is not long.
proof fn lemma_image_is_short(m: Six, y: Three, z: Three, rho: real, bound: real)
    requires
        m.within(bound),
        y.within(11real / 10real),
        z.minus(m.image(y)).within(18real * part(bound)),
        bound > 0real,
        rho > 0real,
        z.dot(z) >= rho * rho - rho * (16real * part(rho)),
    ensures
        rho <= 6real * bound,
        m.image(y).within(33real * bound / 10real),
        z.within(34real * bound / 10real),
{
    let g = m.image(y);
    lemma_image_within(m, y, bound, 11real / 10real);
    assert(bound * (11real / 10real) == 11real * bound / 10real) by (nonlinear_arith);
    let (most, off) = (33real * bound / 10real, 18real * part(bound));
    lemma_within(g.x, z.x, most, off);
    lemma_within(g.y, z.y, most, off);
    lemma_within(g.z, z.z, most, off);
    let wide = 34real * bound / 10real;
    lemma_dot_within(z, z, wide, wide);
    let square = z.dot(z);
    assert(rho * (16real * part(rho)) == 16real * part(rho * rho)) by (nonlinear_arith);
    assert(wide * wide == 1156real * (bound * bound) / 100real) by (nonlinear_arith)
        requires
            wide == 34real * bound / 10real,
    ;
    assert(rho * rho <= 36real * (bound * bound));
    assert(rho <= 6real * bound) by (nonlinear_arith)
        requires
            rho * rho <= 36real * (bound * bound),
            rho > 0real,
            bound > 0real,
    ;
}

/// A refined direction is stretched by nearly the length of the image that it
/// was made of.
#[verifier::rlimit(50)]
proof fn lemma_stretch_of_unit(
    m: Six,
    y: Three,
    z: Three,
    q: real,
    rho: real,
    bound: real,
    slack: real,
)
    requires
        m.within(bound),
        m.keeps_side(slack),
        slack >= 0real,
        bound > 0real,
        size(y.dot(y) - 1real) <= 32real * part(1real),
        y.within(11real / 10real),
        z.minus(m.image(y)).within(18real * part(bound)),
        q > 0real,
        rho > 0real,
        q * rho == 1real,
        size((q * q) * z.dot(z) - 1real) <= 16real * part(1real),
        q * z.dot(z) >= rho - 16real * part(rho),
        rho <= 6real * bound,
        z.scaled(q).within(3real / 2real),
    ensures
        m.stretch(z.scaled(q)) >= rho - 558real * part(bound) - 5real * slack,
        size(z.dot(z.minus(m.image(y)))) <= rho * (81real * part(bound)),
{
    let u = z.scaled(q);
    let g = m.image(y);
    let eta = z.minus(g);
    let p = part(bound);
    lemma_scaled_dots(q, z, z);
    lemma_scaled_dots(q, z, y);
    lemma_scaled_dots(q, z, eta);
    lemma_dot_of_difference(z, g, u);
    lemma_dot_of_difference(z, g, y);
    lemma_mean_of_lengths(y, u);
    lemma_mean_of_lengths(u, y);
    lemma_dot_within(u, eta, 3real / 2real, 18real * p);
    lemma_dot_within(y, eta, 11real / 10real, 18real * p);
    assert((3real / 2real) * (18real * p) == 27real * p) by (nonlinear_arith);
    assert((11real / 10real) * (18real * p) == 198real * p / 10real) by (nonlinear_arith);
    lemma_stretch_of_difference(m, u, y);
    let gap = u.minus(y);
    let apart = gap.dot(gap);
    assert(m.stretch(gap) >= -(slack * apart));
    assert(apart <= 5real);
    assert(slack * apart <= 5real * slack) by (nonlinear_arith)
        requires
            apart <= 5real,
            slack >= 0real,
    ;
    let along = y.dot(u);
    lemma_undone(q, rho, y.dot(z));
    assert(along == q * y.dot(z));
    assert(y.dot(z) == rho * along);
    assert(along <= 1real + 24real * part(1real));
    assert(rho * along <= rho + 24real * part(rho)) by (nonlinear_arith)
        requires
            along <= 1real + 24real * part(1real),
            rho > 0real,
    ;
    lemma_dot_turned(u, g);
    lemma_dot_turned(u, z);
    lemma_dot_turned(u, eta);
    lemma_dot_turned(y, g);
    lemma_dot_turned(y, z);
    lemma_dot_turned(y, eta);
    let d = q * z.dot(z);
    assert(u.dot(g) == d - u.dot(eta));
    assert(m.stretch(y) == y.dot(z) - y.dot(eta));
    lemma_undone(q, rho, z.dot(eta));
    let turn = u.dot(eta);
    assert(z.dot(eta) == rho * turn);
    assert(size(rho * turn) <= rho * (81real * p)) by (nonlinear_arith)
        requires
            size(turn) <= 81real * p,
            rho > 0real,
    ;
}

/// The exact image is no longer than a little more than the rounded one.
proof fn lemma_exact_image(z: Three, g: Three, rho: real, bound: real)
    requires
        z.minus(g).within(18real * part(bound)),
        size(z.dot(z.minus(g))) <= rho * (81real * part(bound)),
        z.dot(z) <= rho * rho + rho * (16real * part(rho)),
        0real < rho <= 6real * bound,
    ensures
        g.dot(g) <= (rho + 138real * part(bound)) * (rho + 138real * part(bound)),
{
    let p = part(bound);
    let eta = z.minus(g);
    lemma_dot_within(eta, eta, 18real * p, 18real * p);
    assert((18real * p) * (18real * p) == 324real * (p * p)) by (nonlinear_arith);
    lemma_dot_of_difference(z, g, z);
    lemma_dot_of_difference(z, g, g);
    lemma_dot_of_difference(z, g, eta);
    lemma_dot_turned(z, g);
    lemma_dot_turned(z, eta);
    lemma_dot_turned(g, eta);
    assert(g.dot(g) == z.dot(z) - 2real * z.dot(eta) + eta.dot(eta));
    assert(rho * (16real * part(rho)) <= rho * (96real * p)) by (nonlinear_arith)
        requires
            0real < rho <= 6real * bound,
            p == part(bound),
    ;
    let x = rho * p;
    assert(rho * (96real * p) == 96real * x) by (nonlinear_arith)
        requires
            x == rho * p,
    ;
    assert(rho * (81real * p) == 81real * x) by (nonlinear_arith)
        requires
            x == rho * p,
    ;
    assert(x >= 0real) by (nonlinear_arith)
        requires
            x == rho * p,
            rho > 0real,
            p >= 0real,
    ;
    assert(p * p >= 0real) by (nonlinear_arith);
    assert((rho + 138real * p) * (rho + 138real * p) == rho * rho + 276real * x + 19044real * (p
        * p)) by (nonlinear_arith)
        requires
            x == rho * p,
    ;
}

pub(crate) proof fn lemma_longer_reaches(m: Six, u: Three, length: real, more: real)
    requires
        m.reaches(u, length),
        length <= more,
    ensures
        m.reaches(u, more),
{
    assert(length * length <= more * more) by (nonlinear_arith)
        requires
            0real <= length <= more,
    ;
}

/// One round of refinement: the new direction is stretched by no less than the
/// length of the image of the old one, but for rounding.
proof fn lemma_round(m: Six, y: Three, z: Three, w: Three, q: real, bound: real, slack: real)
    requires
        m.within(bound),
        m.keeps_side(slack),
        slack >= 0real,
        bound > 0real,
        size(y.dot(y) - 1real) <= 32real * part(1real),
        y.within(11real / 10real),
        z.minus(m.image(y)).within(18real * part(bound)),
        q > 0real,
        size((q * q) * z.dot(z) - 1real) <= 16real * part(1real),
        z.scaled(q).within(3real / 2real),
        w.minus(z.scaled(q)).within(2real * part(1real)),
    ensures
        m.reaches(y, m.stretch(w) + 768real * part(bound) + 5real * slack),
{
    let rho = lemma_length(q, z.dot(z));
    lemma_image_is_short(m, y, z, rho, bound);
    lemma_stretch_of_unit(m, y, z, q, rho, bound, slack);
    lemma_exact_image(z, m.image(y), rho, bound);
    lemma_stretch_of_moved(m, z.scaled(q), w, bound);
    assert(m.reaches(y, rho + 138real * part(bound)));
    lemma_longer_reaches(
        m,
        y,
        rho + 138real * part(bound),
        m.stretch(w) + 768real * part(bound) + 5real * slack,
    );
}

/// No vector is stretched by more than the length of its image, but for what it
/// is longer than one.
#[verifier::rlimit(50)]
proof fn lemma_stretch_is_reached(m: Six, y: Three, length: real, bound: real)
    requires
        m.within(bound),
        bound > 0real,
        size(y.dot(y) - 1real) <= 32real * part(1real),
        y.within(11real / 10real),
        m.reaches(y, length),
    ensures
        m.stretch(y) <= length + 256real * part(bound),
{
    let g = m.image(y);
    lemma_image_within(m, y, bound, 11real / 10real);
    assert(bound * (11real / 10real) == 11real * bound / 10real) by (nonlinear_arith);
    lemma_dot_within(y, g, 11real / 10real, 33real * bound / 10real);
    assert((11real / 10real) * (33real * bound / 10real) == 363real * bound / 100real)
        by (nonlinear_arith);
    let f = m.stretch(y);
    assert(f <= 11real * bound);
    lemma_lengths_and_products(y.x, y.y, y.z, g.x, g.y, g.z);
    let (i, j, k) = (y.y * g.z - g.y * y.z, y.z * g.x - g.z * y.x, y.x * g.y - g.x * y.y);
    lemma_square_size(i, size(i));
    lemma_square_size(j, size(j));
    lemma_square_size(k, size(k));
    let (yy, gg) = (y.dot(y), g.dot(g));
    assert(f * f <= yy * gg);
    let ll = length * length;
    lemma_square_size(g.x, size(g.x));
    lemma_square_size(g.y, size(g.y));
    lemma_square_size(g.z, size(g.z));
    assert(yy * gg <= (1real + 32real * part(1real)) * ll) by (nonlinear_arith)
        requires
            0real <= gg <= ll,
            0real <= yy <= 1real + 32real * part(1real),
    ;
    if f > length {
        let d = f - length;
        assert(f * f == ll + 2real * (length * d) + d * d) by (nonlinear_arith)
            requires
                d == f - length,
                ll == length * length,
        ;
        assert(d * d > 0real) by (nonlinear_arith)
            requires
                d > 0real,
        ;
        assert((1real + 32real * part(1real)) * ll == ll + 32real * part(ll)) by (nonlinear_arith);
        assert(d <= 16real * part(length)) by (nonlinear_arith)
            requires
                2real * (length * d) + d * d <= 32real * part(ll),
                ll == length * length,
                length >= 0real,
                d > 0real,
        ;
    }
}

/// Whether a matrix is one that directions can be refined by: symmetric, with no
/// entry greater than a bound, and keeping every vector on its side up to some
/// slack.
pub open spec fn refinable(matrix: Mat3, bound: real, slack: real) -> bool {
    &&& symmetric(matrix)
    &&& Six::of(matrix).within(bound)
    &&& Six::of(matrix).keeps_side(slack)
    &&& slack >= 0real
    &&& 1real / 1048576real <= bound <= 1125899906842624real
}

#[verifier::rlimit(50)]
proof fn lemma_image_coordinate(
    a: Binary32,
    b: Binary32,
    c: Binary32,
    v: Vec3,
    bound: real,
)
    requires
        a.is_finite() && b.is_finite() && c.is_finite(),
        size(value(a)) <= bound && size(value(b)) <= bound && size(value(c)) <= bound,
        1real / 1048576real <= bound <= 1125899906842624real,
        nearly_unit(v),
    ensures
        near(
            a.times(v.x).plus(b.times(v.y)).plus(c.times(v.z)),
            value(a) * value(v.x) + value(b) * value(v.y) + value(c) * value(v.z),
            18real * part(bound),
        ),
{
    lemma_one_in_units();
    lemma_nearly_unit_coordinates(v);
    lemma_product_size(value(a), value(v.x), bound, 11real / 10real);
    lemma_product_size(value(b), value(v.y), bound, 11real / 10real);
    lemma_product_size(value(c), value(v.z), bound, 11real / 10real);
    assert(bound * (11real / 10real) == 11real * bound / 10real) by (nonlinear_arith);
    lemma_three_products(a, v.x, b, v.y, c, v.z);
}

/// The rounded image of a unit vector.
#[verifier::rlimit(50)]
pub(crate) proof fn lemma_rounded_image(matrix: Mat3, y: Vec3, bound: real)
    requires
        symmetric(matrix),
        Six::of(matrix).within(bound),
        1real / 1048576real <= bound <= 1125899906842624real,
        nearly_unit(y),
    ensures
        ({
            let image = matrix.apply(y);
            &&& image.x.is_finite() && image.y.is_finite() && image.z.is_finite()
            &&& Three::of(image).minus(Six::of(matrix).image(Three::of(y))).within(
                18real * part(bound),
            )
            &&& Three::of(image).within(4real * bound)
            &&& Three::of(y).within(11real / 10real)
            &&& size(Three::of(y).dot(Three::of(y)) - 1real) <= 32real * part(1real)
        }),
{
    let (u, v, w) = (matrix.x_axis, matrix.y_axis, matrix.z_axis);
    lemma_image_coordinate(u.x, v.x, w.x, y, bound);
    lemma_image_coordinate(u.y, v.y, w.y, y, bound);
    lemma_image_coordinate(u.z, v.z, w.z, y, bound);
    lemma_nearly_unit_coordinates(y);
    let (m, z) = (Six::of(matrix), Three::of(matrix.apply(y)));
    let g = m.image(Three::of(y));
    lemma_image_within(m, Three::of(y), bound, 11real / 10real);
    assert(bound * (11real / 10real) == 11real * bound / 10real) by (nonlinear_arith);
    let (most, off) = (33real * bound / 10real, 18real * part(bound));
    lemma_within(g.x, z.x, most, off);
    lemma_within(g.y, z.y, most, off);
    lemma_within(g.z, z.z, most, off);
}

/// An image that has a direction makes a unit vector that is stretched by no
/// less than its length, but for rounding.
proof fn lemma_rounded_round(matrix: Mat3, y: Vec3, bound: real, slack: real)
    requires
        refinable(matrix, bound, slack),
        nearly_unit(y),
        !matrix.apply(y).length_squared().lt(Binary32::of(NO_DIRECTION)),
    ensures
        nearly_unit(matrix.apply(y).normalize()),
        Six::of(matrix).reaches(
            Three::of(y),
            Six::of(matrix).stretch(Three::of(matrix.apply(y).normalize())) + 768real * part(bound)
                + 5real * slack,
        ),
{
    lemma_one_in_units();
    lemma_thresholds();
    lemma_rounded_image(matrix, y, bound);
    let image = matrix.apply(y);
    lemma2_to64();
    lemma2_to64_rest();
    assert(pow2(60) == 1152921504606846976);
    lemma_bounded_value(image.x, 60);
    lemma_bounded_value(image.y, 60);
    lemma_bounded_value(image.z, 60);
    if image.length_squared().is_finite() {
        law_order_of_values(image.length_squared(), Binary32::of(NO_DIRECTION));
    }
    let q = lemma_normalize(image);
    lemma_image_coordinates(q, image);
    let (z, w) = (Three::of(image), Three::of(image.normalize()));
    lemma_round(Six::of(matrix), Three::of(y), z, w, q, bound, slack);
}

/// An image too short to have a direction.
#[verifier::rlimit(50)]
proof fn lemma_short_image(matrix: Mat3, y: Vec3, bound: real, slack: real)
    requires
        refinable(matrix, bound, slack),
        nearly_unit(y),
        matrix.apply(y).length_squared().lt(Binary32::of(NO_DIRECTION)),
    ensures
        Six::of(matrix).reaches(
            Three::of(y),
            Six::of(matrix).stretch(Three::of(y)) + 54real * part(bound) + 2real * slack + 1real
                / 500000real,
        ),
{
    lemma_one_in_units();
    lemma_thresholds();
    lemma_rounded_image(matrix, y, bound);
    let image = matrix.apply(y);
    let (m, u, z) = (Six::of(matrix), Three::of(y), Three::of(image));
    let g = m.image(u);
    lemma_square_size(z.x, 4real * bound);
    lemma_square_size(z.y, 4real * bound);
    lemma_square_size(z.z, 4real * bound);
    let wide = 4real * bound;
    assert(wide * wide <= 20282409603651670423947251286016real) by (nonlinear_arith)
        requires
            0real <= wide <= 4503599627370496real,
    ;
    law_value_of_dot(image, image);
    law_order_of_values(image.length_squared(), Binary32::of(NO_DIRECTION));
    let square = z.dot(z);
    assert(square == exact_dot(image, image));
    assert(square <= 2real / 549755813888real);
    let (tau, h) = (1real / 500000real, 18real * part(bound));
    lemma_short_coordinate(z.x, z.y * z.y + z.z * z.z);
    lemma_short_coordinate(z.y, z.z * z.z + z.x * z.x);
    lemma_short_coordinate(z.z, z.x * z.x + z.y * z.y);
    let eta = z.minus(g);
    lemma_dot_within(z, eta, tau, h);
    lemma_dot_within(eta, eta, h, h);
    lemma_dot_of_difference(z, g, z);
    lemma_dot_of_difference(z, g, g);
    lemma_dot_of_difference(z, g, eta);
    lemma_dot_turned(z, g);
    lemma_dot_turned(z, eta);
    lemma_dot_turned(g, eta);
    assert(g.dot(g) == square - 2real * z.dot(eta) + eta.dot(eta));
    assert((tau + 3real * h) * (tau + 3real * h) == tau * tau + 6real * (tau * h) + 9real * (h
        * h)) by (nonlinear_arith);
    assert(tau * tau == 1real / 250000000000real) by (nonlinear_arith)
        requires
            tau == 1real / 500000real,
    ;
    assert(h * h >= 0real) by (nonlinear_arith);
    assert(m.reaches(u, tau + 3real * h));
    assert(m.stretch(u) >= -(slack * u.dot(u)));
    let uu = u.dot(u);
    assert(slack * uu <= 2real * slack) by (nonlinear_arith)
        requires
            uu <= 2real,
            slack >= 0real,
    ;
    lemma_longer_reaches(
        m,
        u,
        tau + 3real * h,
        m.stretch(u) + 54real * part(bound) + 2real * slack + tau,
    );
}

proof fn lemma_short_coordinate(a: real, rest: real)
    requires
        a * a + rest <= 2real / 549755813888real,
        rest >= 0real,
    ensures
        size(a) <= 1real / 500000real,
{
    assert(-(1real / 500000real) <= a <= 1real / 500000real) by (nonlinear_arith)
        requires
            a * a <= 2real / 549755813888real,
    ;
}

/// What rounding may cost in a number of rounds.
pub open spec fn cost_of_rounds(rounds: nat, bound: real, slack: real) -> real {
    (rounds as real) * (1024real * part(bound) + 5real * slack)
}

proof fn lemma_cost_of_rounds(rounds: nat, bound: real, slack: real)
    requires
        bound >= 0real,
        slack >= 0real,
    ensures
        cost_of_rounds(rounds, bound, slack) >= 0real,
        cost_of_rounds(rounds + 1, bound, slack) == cost_of_rounds(rounds, bound, slack) + 1024real
            * part(bound) + 5real * slack,
{
    let (n, each) = (rounds as real, 1024real * part(bound) + 5real * slack);
    assert(n * each >= 0real) by (nonlinear_arith)
        requires
            n >= 0real,
            each >= 0real,
    ;
    assert((n + 1real) * each == n * each + each) by (nonlinear_arith);
    assert((rounds + 1) as real == n + 1real);
}

/// Refining a direction never loses more than rounding costs: along the refined
/// direction a vector is stretched no less than along the first one.
pub proof fn law_refining_does_not_lose(
    matrix: Mat3,
    v: Vec3,
    rounds: nat,
    bound: real,
    slack: real,
)
    requires
        refinable(matrix, bound, slack),
        nearly_unit(v),
    ensures
        nearly_unit(refined(matrix, v, rounds)),
        Six::of(matrix).stretch(Three::of(v)) <= Six::of(matrix).stretch(
            Three::of(refined(matrix, v, rounds)),
        ) + cost_of_rounds(rounds, bound, slack),
    decreases rounds,
{
    lemma_cost_of_rounds(rounds, bound, slack);
    let image = matrix.apply(v);
    if rounds > 0 && !image.length_squared().lt(Binary32::of(NO_DIRECTION)) {
        let next = image.normalize();
        let fewer = (rounds - 1) as nat;
        lemma_rounded_round(matrix, v, bound, slack);
        lemma_rounded_image(matrix, v, bound);
        lemma_stretch_is_reached(
            Six::of(matrix),
            Three::of(v),
            Six::of(matrix).stretch(Three::of(next)) + 768real * part(bound) + 5real * slack,
            bound,
        );
        law_refining_does_not_lose(matrix, next, fewer, bound, slack);
        lemma_cost_of_rounds(fewer, bound, slack);
    }
}

/// A refined direction is one that a matrix stretches much: no less than the
/// length of the image of any direction that was passed on the way to it, the
/// first one included, but for what rounding costs and for lengths below the
/// bound of what has a direction.
pub proof fn law_refined_direction_is_stretched(
    matrix: Mat3,
    v: Vec3,
    rounds: nat,
    passed: nat,
    bound: real,
    slack: real,
)
    requires
        refinable(matrix, bound, slack),
        nearly_unit(v),
        passed < rounds,
    ensures
        Six::of(matrix).reaches(
            Three::of(refined(matrix, v, passed)),
            Six::of(matrix).stretch(Three::of(refined(matrix, v, rounds))) + cost_of_rounds(
                rounds,
                bound,
                slack,
            ) + 1real / 500000real,
        ),
    decreases rounds,
{
    let m = Six::of(matrix);
    let image = matrix.apply(v);
    let fewer = (rounds - 1) as nat;
    lemma_cost_of_rounds(fewer, bound, slack);
    let end = m.stretch(Three::of(refined(matrix, v, rounds))) + cost_of_rounds(
        rounds,
        bound,
        slack,
    ) + 1real / 500000real;
    if image.length_squared().lt(Binary32::of(NO_DIRECTION)) {
        lemma_short_image(matrix, v, bound, slack);
        lemma_longer_reaches(
            m,
            Three::of(v),
            m.stretch(Three::of(v)) + 54real * part(bound) + 2real * slack + 1real / 500000real,
            end,
        );
    } else {
        let next = image.normalize();
        lemma_rounded_round(matrix, v, bound, slack);
        if passed == 0 {
            law_refining_does_not_lose(matrix, next, fewer, bound, slack);
            lemma_longer_reaches(
                m,
                Three::of(v),
                m.stretch(Three::of(next)) + 768real * part(bound) + 5real * slack,
                end,
            );
        } else {
            let before = (passed - 1) as nat;
            law_refined_direction_is_stretched(matrix, next, fewer, before, bound, slack);
            lemma_longer_reaches(
                m,
                Three::of(refined(matrix, next, before)),
                m.stretch(Three::of(refined(matrix, next, fewer))) + cost_of_rounds(
                    fewer,
                    bound,
                    slack,
                ) + 1real / 500000real,
                end,
            );
        }
    }
}

/// No round is left out: wherever the image of a direction is long enough to have
/// one, refining goes on from the image, and wherever it is too short, the
/// direction is kept.
pub proof fn law_every_round_counts(matrix: Mat3, v: Vec3, rounds: nat)
    requires
        matrix.apply(v).length_squared().is_finite(),
    ensures
        refined(matrix, v, 0) == v,
        value(matrix.apply(v).length_squared()) >= 1real / 549755813888real ==> refined(
            matrix,
            v,
            rounds + 1,
        ) == refined(matrix, matrix.apply(v).normalize(), rounds),
        value(matrix.apply(v).length_squared()) < 1real / 1099511627776real ==> refined(
            matrix,
            v,
            rounds,
        ) == v,
{
    lemma_thresholds();
    law_order_of_values(matrix.apply(v).length_squared(), Binary32::of(NO_DIRECTION));
}

} // verus!
