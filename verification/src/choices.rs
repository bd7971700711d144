//! How ties are broken, and other choices that leave nothing open.
use crate::axes::lemma_least_parallel;
use crate::binary32::{Binary32, ZERO};
use crate::conversion::ConversionView;
use crate::directions::{
    dot_sizes, exact_dot, law_value_of_dot, lemma_cross_normalized, lemma_product_size,
    lemma_sizes_add, lemma_within, nearly_across, nearly_unit,
};
use crate::fitting::{least_parallel_axis, principal_box};
use crate::laws::law_leader_is_unique;
use crate::parting::{point_within, triangle_within};
use crate::scatter::Three;
use crate::triangle::{halves, Triangle};
use crate::value::{
    law_order_of_values, law_value_of_sum, law_values_of_constants, lemma_one_in_units,
    near, part, size, unit, value,
};
use crate::vector::{Quat, Vec3};
use vstd::prelude::*;

verus! {

/// Of two clusters with the same surface error the one that was made first is
/// taken first.
pub proof fn law_earlier_of_equals_is_taken(state: ConversionView, i: int, j: int)
    requires
        state.leads(i),
        state.waits(j),
        state.places[i]->0.surface_error == state.places[j]->0.surface_error,
    ensures
        i <= j,
{
}

/// Boxes come out in the order in which they were finished: a step leaves those
/// that are finished as they are, and adds one behind them or none.
pub proof fn law_finished_boxes_keep_their_order(
    state: ConversionView,
    next: ConversionView,
    i: int,
)
    requires
        state.steps_to(next),
        0 <= i < state.boxes().len(),
    ensures
        state.boxes().len() <= next.boxes().len() <= state.boxes().len() + 1,
        next.boxes()[i] == state.boxes()[i],
        state.boxes()[i] == state.finished[i].obb,
{
}

/// A cluster that is close enough is finished as it is, and one that is not is
/// replaced by two that wait behind all others.
pub proof fn law_step_finishes_or_replaces(state: ConversionView, next: ConversionView, i: int)
    requires
        state.leads(i),
        state.steps_to(next),
    ensures
        next.limit == state.limit,
        !next.waits(i),
        forall|j: int|
            0 <= j < state.places.len() && j != i ==> #[trigger] next.places[j] == state.places[j],
        state.places[i]->0.surface_error.le(state.limit) ==> next.places.len()
            == state.places.len() && next.finished == state.finished.push(state.places[i]->0),
        !state.places[i]->0.surface_error.le(state.limit) ==> next.finished == state.finished
            && next.places.len() == state.places.len() + 2 && next.waits(
            state.places.len() as int,
        ) && next.waits(state.places.len() as int + 1),
{
    let k = choose|k: int| state.steps_by(k, next);
    law_leader_is_unique(state, i, k);
}

/// Whether a triangle is cut across the edge from one corner to another.
pub open spec fn cuts_edge(t: Triangle, p: Vec3, q: Vec3, opposite: Vec3) -> bool {
    let (first, second) = halves(t);
    first.a == p && second.b == q && first.c == opposite && second.c == opposite && first.b
        == second.a
}

/// Of equally long edges the first is cut: the one from the first corner to the
/// second wherever neither of the others is longer, else the one from the second
/// to the third wherever that from the third to the first is not longer.
pub proof fn law_first_of_equal_edges_is_cut(t: Triangle)
    ensures
        ({
            let (ab, bc, ca) = (
                t.a.distance_squared(t.b),
                t.b.distance_squared(t.c),
                t.c.distance_squared(t.a),
            );
            if bc.le(ab) && ca.le(ab) {
                cuts_edge(t, t.a, t.b, t.c)
            } else if ca.le(bc) {
                cuts_edge(t, t.b, t.c, t.a)
            } else {
                cuts_edge(t, t.c, t.a, t.b)
            }
        }),
{
    reveal(halves);
}

/// Each cut halves the share that a triangle stands for, until after one thousand
/// and seventy-five of them nothing is left to halve.
pub proof fn law_cuts_are_counted(t: Triangle)
    ensures
        halves(t).0.halvings == halves(t).1.halvings,
        t.halvings < 1075 ==> halves(t).0.halvings == t.halvings + 1,
        t.halvings >= 1075 ==> halves(t).0.halvings == 1075,
{
    reveal(halves);
}

/// The lesser and the greater of two numbers: one of them, and not above or below
/// either; where one is not a number, the other.
pub proof fn law_extremes_of_numbers(a: Binary32, b: Binary32)
    ensures
        a.is_nan() ==> a.least(b) == b && a.greatest(b) == b,
        b.is_nan() && !a.is_nan() ==> a.least(b) == a && a.greatest(b) == a,
        !a.is_nan() && !b.is_nan() ==> {
            &&& a.least(b) == a || a.least(b) == b
            &&& a.least(b).le(a) && a.least(b).le(b)
            &&& a.greatest(b) == a || a.greatest(b) == b
            &&& a.le(a.greatest(b)) && b.le(a.greatest(b))
        },
{
    reveal(Binary32::spec_lt);
    reveal(Binary32::spec_le);
}

/// The total order tells any two bit patterns apart. What is not a number comes
/// first or last, by its sign, and the negative zero comes just before the
/// positive one.
pub proof fn law_ranks_tell_everything_apart(a: Binary32, b: Binary32)
    ensures
        a.rank() == b.rank() <==> a == b,
        a.negative() && !b.negative() ==> a.rank() < b.rank(),
        a.is_nan() && !b.is_nan() ==> (if a.negative() {
            a.rank() < b.rank()
        } else {
            b.rank() < a.rank()
        }),
        Binary32::of(ZERO).neg().rank() + 1 == Binary32::of(ZERO).rank(),
{
}

/// A vector across a unit vector is itself one of unit length, and at right
/// angles to it.
pub proof fn law_perpendicular_is_across(v: Vec3)
    requires
        nearly_unit(v),
    ensures
        nearly_unit(v.cross(least_parallel_axis(v)).normalize()),
        nearly_across(v.cross(least_parallel_axis(v)).normalize(), v),
{
    lemma_least_parallel(v);
    lemma_cross_normalized(v, least_parallel_axis(v));
}

/// No triangles have an empty box at the origin that is not turned.
pub proof fn law_box_of_nothing_is_empty()
    ensures
        ({
            let obb = principal_box(Seq::empty());
            &&& value(obb.position.x) == 0real && value(obb.position.y) == 0real && value(
                obb.position.z,
            ) == 0real
            &&& value(obb.scale.x) == 0real && value(obb.scale.y) == 0real && value(obb.scale.z)
                == 0real
            &&& obb.rotation == Quat::identity()
        }),
{
    reveal(principal_box);
    law_values_of_constants();
}

/// The exact square of the distance between two points.
pub open spec fn exact_distance_squared(a: Vec3, b: Vec3) -> real {
    let way = Three::of(a).minus(Three::of(b));
    way.dot(way)
}

#[verifier::rlimit(50)]
proof fn lemma_squared_difference(a: Binary32, b: Binary32, bound: real, square: real)
    requires
        a.is_finite() && b.is_finite(),
        size(value(a)) <= bound && size(value(b)) <= bound,
        0real <= bound <= 1152921504606846976real,
        square == bound * bound,
    ensures
        a.minus(b).is_finite(),
        ({
            let (f, d) = (value(a.minus(b)), value(a) - value(b));
            &&& size(f * f - d * d) <= 10real * part(square)
            &&& 0real <= f * f <= 5real * square
        }),
{
    law_value_of_sum(a, b);
    let (f, d) = (value(a.minus(b)), value(a) - value(b));
    let (most, off) = (2real * bound, 2real * part(bound));
    lemma_sizes_add(value(a), value(b));
    lemma_within(d, f, most, off);
    lemma_sizes_add(f, d);
    let (gap, sum) = (f - d, f + d);
    lemma_product_size(gap, sum, off, 5real * bound);
    assert(off * (5real * bound) == 10real * part(square)) by (nonlinear_arith)
        requires
            off == 2real * part(bound),
            square == bound * bound,
    ;
    assert(gap * sum == f * f - d * d) by (nonlinear_arith)
        requires
            gap == f - d,
            sum == f + d,
    ;
    let wide = 22real * bound / 10real;
    lemma_product_size(f, f, wide, wide);
    assert(wide * wide == 484real * square / 100real) by (nonlinear_arith)
        requires
            wide == 22real * bound / 10real,
            square == bound * bound,
    ;
    assert(f * f >= 0real) by (nonlinear_arith);
    assert(square >= 0real) by (nonlinear_arith)
        requires
            square == bound * bound,
    ;
}

/// The square of a distance, as far as coordinates are not too great.
#[verifier::rlimit(50)]
pub proof fn law_value_of_distance(a: Vec3, b: Vec3, bound: real)
    requires
        point_within(a, bound),
        point_within(b, bound),
        bound <= 1152921504606846976real,
    ensures
        near(
            a.distance_squared(b),
            exact_distance_squared(a, b),
            128real * part(bound * bound) + 4real * unit(),
        ),
{
    lemma_one_in_units();
    let square = bound * bound;
    assert(square <= 1329227995784915872903807060280344576real) by (nonlinear_arith)
        requires
            square == bound * bound,
            0real <= bound <= 1152921504606846976real,
    ;
    lemma_squared_difference(a.x, b.x, bound, square);
    lemma_squared_difference(a.y, b.y, bound, square);
    lemma_squared_difference(a.z, b.z, bound, square);
    let v = a.minus(b);
    assert(dot_sizes(v, v) == exact_dot(v, v));
    law_value_of_dot(v, v);
    lemma_sizes_add(
        value(a.distance_squared(b)) - exact_dot(v, v),
        exact_dot(v, v) - exact_distance_squared(a, b),
    );
}

/// The edge that is cut is the longest one, but for rounding.
pub proof fn law_cut_edge_is_exactly_long(t: Triangle, bound: real)
    requires
        triangle_within(t, bound),
        bound <= 1152921504606846976real,
    ensures
        ({
            let (p, q, r) = (halves(t).0.a, halves(t).1.b, halves(t).0.c);
            let error = 256real * part(bound * bound) + 8real * unit();
            &&& (p, q, r) == (t.a, t.b, t.c) || (p, q, r) == (t.b, t.c, t.a) || (p, q, r) == (
                t.c,
                t.a,
                t.b,
            )
            &&& exact_distance_squared(q, r) <= exact_distance_squared(p, q) + error
            &&& exact_distance_squared(r, p) <= exact_distance_squared(p, q) + error
        }),
{
    reveal(halves);
    law_value_of_distance(t.a, t.b, bound);
    law_value_of_distance(t.b, t.c, bound);
    law_value_of_distance(t.c, t.a, bound);
    let (x, y, z) = (
        t.a.distance_squared(t.b),
        t.b.distance_squared(t.c),
        t.c.distance_squared(t.a),
    );
    law_order_of_values(y, x);
    law_order_of_values(z, x);
    law_order_of_values(z, y);
}

} // verus!
