//! What the operations on vectors and matrices come to, coordinate by
//! coordinate, compared with exact ones.
use crate::binary32::{Binary32, ONE, ZERO};
use crate::closeness::coordinate;
use crate::directions::lemma_three_products;
use crate::fitting::{least_parallel_axis, outer_product};
use crate::grid::{
    grid_step, lemma_grid_difference, lemma_grid_product, lemma_grid_sum, lemma_grid_value,
    lemma_grid_zero, on_grid,
};
use crate::rounding::{lemma_units_in_binade, BINADE};
use crate::value::{
    large, law_order_of_values, law_value_of_product, law_value_of_quotient, law_value_of_sum,
    law_values_of_constants, lemma_one_in_units, lemma_value_of_neg, lemma_value_of_sign, near,
    part, size, unit, value,
};
use crate::vector::{Mat3, Quat, Vec3};
use vstd::arithmetic::power2::{lemma2_to64, lemma_pow2_adds};
use vstd::prelude::*;

verus! {

/// Whether every coordinate is finite.
pub open spec fn finite_vector(v: Vec3) -> bool {
    v.x.is_finite() && v.y.is_finite() && v.z.is_finite()
}

/// The exact value of a coordinate.
pub open spec fn value_at(v: Vec3, axis: int) -> real {
    value(coordinate(v, axis))
}

/// Vectors are added and taken from each other coordinate by coordinate, with
/// one rounding each.
pub proof fn law_sum_of_vectors(a: Vec3, b: Vec3, axis: int)
    requires
        finite_vector(a),
        finite_vector(b),
        0 <= axis < 3,
    ensures
        ({
            let sum = value_at(a, axis) + value_at(b, axis);
            size(sum) <= large() ==> near(coordinate(a.plus(b), axis), sum, part(size(sum)))
        }),
        ({
            let difference = value_at(a, axis) - value_at(b, axis);
            size(difference) <= large() ==> near(
                coordinate(a.minus(b), axis),
                difference,
                part(size(difference)),
            )
        }),
{
    law_value_of_sum(coordinate(a, axis), coordinate(b, axis));
}

/// Vectors are multiplied coordinate by coordinate, be it by each other or by one
/// factor, with one rounding each.
pub proof fn law_product_of_vectors(a: Vec3, b: Vec3, factor: Binary32, axis: int)
    requires
        finite_vector(a),
        finite_vector(b),
        factor.is_finite(),
        0 <= axis < 3,
    ensures
        ({
            let product = value_at(a, axis) * value_at(b, axis);
            size(product) <= large() ==> near(
                coordinate(a.times(b), axis),
                product,
                part(size(product)) + unit() / 2real,
            )
        }),
        ({
            let product = value_at(a, axis) * value(factor);
            size(product) <= large() ==> near(
                coordinate(a.scaled(factor), axis),
                product,
                part(size(product)) + unit() / 2real,
            )
        }),
{
    if size(value_at(a, axis) * value_at(b, axis)) <= large() {
        law_value_of_product(coordinate(a, axis), coordinate(b, axis));
    }
    if size(value_at(a, axis) * value(factor)) <= large() {
        law_value_of_product(coordinate(a, axis), factor);
    }
}

/// Vectors are divided coordinate by coordinate, with one rounding each, and
/// turned round without any.
pub proof fn law_quotient_of_vector(a: Vec3, divisor: Binary32, axis: int)
    requires
        finite_vector(a),
        divisor.is_finite(),
        value(divisor) != 0real,
        0 <= axis < 3,
    ensures
        ({
            let quotient = value_at(a, axis) / value(divisor);
            size(quotient) <= large() ==> near(
                coordinate(a.over(divisor), axis),
                quotient,
                part(size(quotient)) + unit() / 2real,
            )
        }),
        value_at(a.neg(), axis) == -value_at(a, axis),
{
    if size(value_at(a, axis) / value(divisor)) <= large() {
        law_value_of_quotient(coordinate(a, axis), divisor);
    }
    lemma_value_of_neg(coordinate(a, axis));
}

/// The least and the greatest of two vectors, coordinate by coordinate.
pub proof fn law_extremes_of_vectors(a: Vec3, b: Vec3, axis: int)
    requires
        finite_vector(a),
        finite_vector(b),
        0 <= axis < 3,
    ensures
        value_at(a.least(b), axis) == if value_at(a, axis) <= value_at(b, axis) {
            value_at(a, axis)
        } else {
            value_at(b, axis)
        },
        value_at(a.greatest(b), axis) == if value_at(a, axis) >= value_at(b, axis) {
            value_at(a, axis)
        } else {
            value_at(b, axis)
        },
{
    law_order_of_values(coordinate(a, axis), coordinate(b, axis));
    law_order_of_values(coordinate(b, axis), coordinate(a, axis));
}

/// The origin and the unit vectors along the axes.
pub proof fn law_coordinate_vectors(axis: int)
    requires
        0 <= axis < 3,
    ensures
        value_at(Vec3::zero(), axis) == 0real,
        value_at(Vec3::x_unit(), axis) == if axis == 0 { 1real } else { 0real },
        value_at(Vec3::y_unit(), axis) == if axis == 1 { 1real } else { 0real },
        value_at(Vec3::z_unit(), axis) == if axis == 2 { 1real } else { 0real },
{
    law_values_of_constants();
}

/// An entry of a matrix: which coordinate of which column.
pub open spec fn entry(m: Mat3, column: int, row: int) -> Binary32 {
    if column == 0 {
        coordinate(m.x_axis, row)
    } else if column == 1 {
        coordinate(m.y_axis, row)
    } else {
        coordinate(m.z_axis, row)
    }
}

/// The exact image of a vector, in one coordinate.
pub open spec fn exact_image(m: Mat3, v: Vec3, row: int) -> real {
    value(entry(m, 0, row)) * value(v.x) + value(entry(m, 1, row)) * value(v.y) + value(
        entry(m, 2, row),
    ) * value(v.z)
}

/// The sizes of the products that a coordinate of an image is the sum of.
pub open spec fn image_sizes(m: Mat3, v: Vec3, row: int) -> real {
    size(value(entry(m, 0, row)) * value(v.x)) + size(value(entry(m, 1, row)) * value(v.y)) + size(
        value(entry(m, 2, row)) * value(v.z),
    )
}

/// The image of a vector: the columns of the matrix, each as often as the
/// coordinate of the vector says, up to rounding.
pub proof fn law_value_of_image(m: Mat3, v: Vec3, row: int)
    requires
        finite_vector(m.x_axis) && finite_vector(m.y_axis) && finite_vector(m.z_axis),
        finite_vector(v),
        0 <= row < 3,
        image_sizes(m, v, row) <= large() / 4real,
    ensures
        near(
            coordinate(m.apply(v), row),
            exact_image(m, v, row),
            5real * part(image_sizes(m, v, row)) + 4real * unit(),
        ),
{
    lemma_three_products(
        entry(m, 0, row),
        v.x,
        entry(m, 1, row),
        v.y,
        entry(m, 2, row),
        v.z,
    );
}

/// Rows and columns of a transposed matrix are those of the matrix the other way
/// round.
pub proof fn law_transpose_swaps_rows_and_columns(m: Mat3, column: int, row: int)
    requires
        0 <= column < 3,
        0 <= row < 3,
    ensures
        entry(m.transpose(), column, row) == entry(m, row, column),
{
}

/// The entries of an outer product are the products of the coordinates, with one
/// rounding each, and the same either way round.
pub proof fn law_outer_product_holds_products(a: Vec3, b: Vec3, column: int, row: int)
    requires
        finite_vector(a),
        finite_vector(b),
        0 <= column < 3,
        0 <= row < 3,
        size(value_at(a, row) * value_at(b, column)) <= large(),
    ensures
        near(
            entry(outer_product(a, b), column, row),
            value_at(a, row) * value_at(b, column),
            part(size(value_at(a, row) * value_at(b, column))) + unit() / 2real,
        ),
{
    law_value_of_product(coordinate(a, row), coordinate(b, column));
}

/// The axis that is least parallel to a vector is one along which no other
/// coordinate is smaller; of two alike the earlier one.
pub proof fn law_least_parallel_axis_is_along_the_least(v: Vec3)
    requires
        finite_vector(v),
    ensures
        ({
            let (x, y, z) = (size(value(v.x)), size(value(v.y)), size(value(v.z)));
            &&& least_parallel_axis(v) == Vec3::x_unit() <==> x <= y && x <= z
            &&& least_parallel_axis(v) == Vec3::y_unit() <==> y < x && y <= z || z < x && y <= z
            &&& least_parallel_axis(v) == Vec3::z_unit() <==> z < y && (z < x || y < x)
        }),
{
    lemma_abs_value(v.x);
    lemma_abs_value(v.y);
    lemma_abs_value(v.z);
    law_order_of_values(v.x.abs(), v.y.abs());
    law_order_of_values(v.x.abs(), v.z.abs());
    law_order_of_values(v.y.abs(), v.z.abs());
}

proof fn lemma_abs_value(x: Binary32)
    requires
        x.is_finite(),
    ensures
        x.abs().is_finite(),
        value(x.abs()) == size(value(x)),
{
    lemma_value_of_neg(x);
    lemma_value_of_sign(x);
    lemma_value_of_sign(x.abs());
}

/// The rotation that moves nothing has the coordinate axes for its basis.
pub proof fn law_identity_moves_nothing()
    ensures
        ({
            let basis = Quat::identity().basis();
            &&& value(basis.x_axis.x) == 1real && value(basis.x_axis.y) == 0real && value(
                basis.x_axis.z,
            ) == 0real
            &&& value(basis.y_axis.x) == 0real && value(basis.y_axis.y) == 1real && value(
                basis.y_axis.z,
            ) == 0real
            &&& value(basis.z_axis.x) == 0real && value(basis.z_axis.y) == 0real && value(
                basis.z_axis.z,
            ) == 1real
        }),
{
    lemma_one_in_units();
    let (zero, one) = (Binary32::of(ZERO), Binary32::of(ONE));
    lemma_grid_zero(149);
    assert(on_grid(one, 1, 149)) by {
        lemma2_to64();
        lemma_units_in_binade(BINADE as nat, 126);
        lemma_pow2_adds(23, 126);
    }
    let twice = zero.plus(zero);
    lemma_grid_sum(zero, zero, 0, 0, 149);
    lemma_grid_product(zero, twice, 0, 0, 149, 149);
    lemma_grid_product(one, twice, 1, 0, 149, 149);
    let (a, b) = (zero.times(twice), one.times(twice));
    lemma_grid_sum(a, a, 0, 0, 149);
    lemma_grid_sum(a, b, 0, 0, 149);
    lemma_grid_difference(a, b, 0, 0, 149);
    lemma_grid_difference(one, a.plus(a), 1, 0, 149);
    lemma_grid_value(a.plus(b), 0, 149);
    lemma_grid_value(a.minus(b), 0, 149);
    lemma_grid_value(one.minus(a.plus(a)), 1, 149);
    assert((0int as real) * grid_step(149) == 0real) by (nonlinear_arith);
    assert((1int as real) * grid_step(149) == grid_step(149)) by (nonlinear_arith);
}

} // verus!
