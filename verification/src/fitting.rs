//! Oriented boxes around triangles, and how closely a box follows them.
use crate::arithmetic::law_root_is_a_number;
use crate::binary32::{Binary32, HALF, INFINITY, NEG_INFINITY, NEG_ONE, ONE, ZERO};
use crate::triangle::{
    nearest_offset, point_triangle_distance_squared, triangle_normal, Triangle,
};
use crate::vector::{Mat3, Quat, Vec3};
use vstd::prelude::*;

verus! {

/// Squared lengths below this bound do not give a direction: the number
/// nearest to the twelfth power of a tenth.
pub const NO_DIRECTION: u32 = 0x2b8c_bccc;

/// A second axis shorter than this, squared, is replaced: the number nearest
/// to the tenth power of a tenth.
pub const NO_SECOND_AXIS: u32 = 0x2edb_e6ff;

/// How often a direction is refined at most.
pub const REFINEMENTS: u32 = 32;

/// A box: its centre, the rotation of its axes, and its extents along them.
#[derive(Clone, Copy, Debug, PartialEq, Eq, Structural)]
pub struct BoxTransform {
    pub position: Vec3,
    pub rotation: Quat,
    pub scale: Vec3,
}

/// The sum of all corners, added one by one in order.
pub open spec fn corner_sum(triangles: Seq<Triangle>) -> Vec3
    decreases triangles.len(),
{
    if triangles.len() == 0 {
        Vec3::zero()
    } else {
        let t = triangles.last();
        corner_sum(triangles.drop_last()).plus(t.a).plus(t.b).plus(t.c)
    }
}

/// The number of corners as a binary32 number.
pub open spec fn corner_count(triangles: Seq<Triangle>) -> Binary32 {
    Binary32::from_count((triangles.len() * 3) as u64)
}

/// The mean of all corners.
pub open spec fn mean_corner(triangles: Seq<Triangle>) -> Vec3 {
    corner_sum(triangles).over(corner_count(triangles))
}

fn mean_of_corners(triangles: &Vec<Triangle>) -> (result: Vec3)
    requires
        triangles.len() * 3 <= usize::MAX,
    ensures
        result == mean_corner(triangles@),
{
    let mut sum = Vec3::zero();
    let mut i: usize = 0;
    while i < triangles.len()
        invariant
            i <= triangles.len(),
            sum == corner_sum(triangles@.take(i as int)),
        decreases triangles.len() - i,
    {
        let t = triangles[i];
        sum = sum.plus(t.a).plus(t.b).plus(t.c);
        i = i + 1;
        assert(triangles@.take(i as int).drop_last() =~= triangles@.take(i - 1));
    }
    assert(triangles@.take(i as int) =~= triangles@);
    let count = triangles.len() * 3;
    sum.over(Binary32::from_count(count as u64))
}

/// Sums of products of coordinates.
#[derive(Clone, Copy, Debug, PartialEq, Eq, Structural)]
pub struct Moments {
    pub xx: Binary32,
    pub xy: Binary32,
    pub xz: Binary32,
    pub yy: Binary32,
    pub yz: Binary32,
    pub zz: Binary32,
}

impl Moments {
    /// All sums empty.
    #[verifier::allow_in_spec]
    pub fn none() -> Moments
        returns
            (Moments {
                xx: Binary32::of(ZERO),
                xy: Binary32::of(ZERO),
                xz: Binary32::of(ZERO),
                yy: Binary32::of(ZERO),
                yz: Binary32::of(ZERO),
                zz: Binary32::of(ZERO),
            }),
    {
        Moments {
            xx: Binary32::of(ZERO),
            xy: Binary32::of(ZERO),
            xz: Binary32::of(ZERO),
            yy: Binary32::of(ZERO),
            yz: Binary32::of(ZERO),
            zz: Binary32::of(ZERO),
        }
    }

    /// The sums with one more deviation counted in.
    #[verifier::allow_in_spec]
    pub fn with(self, d: Vec3) -> Moments
        returns
            (Moments {
                xx: self.xx.plus(d.x.times(d.x)),
                xy: self.xy.plus(d.x.times(d.y)),
                xz: self.xz.plus(d.x.times(d.z)),
                yy: self.yy.plus(d.y.times(d.y)),
                yz: self.yz.plus(d.y.times(d.z)),
                zz: self.zz.plus(d.z.times(d.z)),
            }),
    {
        Moments {
            xx: self.xx.plus(d.x.times(d.x)),
            xy: self.xy.plus(d.x.times(d.y)),
            xz: self.xz.plus(d.x.times(d.z)),
            yy: self.yy.plus(d.y.times(d.y)),
            yz: self.yz.plus(d.y.times(d.z)),
            zz: self.zz.plus(d.z.times(d.z)),
        }
    }

    /// The symmetric matrix of the mean products.
    #[verifier::allow_in_spec]
    pub fn mean(self, count: Binary32) -> Mat3
        returns
            Mat3::from_cols(
                Vec3::new(self.xx, self.xy, self.xz).over(count),
                Vec3::new(self.xy, self.yy, self.yz).over(count),
                Vec3::new(self.xz, self.yz, self.zz).over(count),
            ),
    {
        Mat3::from_cols(
            Vec3::new(self.xx, self.xy, self.xz).over(count),
            Vec3::new(self.xy, self.yy, self.yz).over(count),
            Vec3::new(self.xz, self.yz, self.zz).over(count),
        )
    }
}

/// The moments of all corners about a point.
pub open spec fn moments_about(triangles: Seq<Triangle>, mean: Vec3) -> Moments
    decreases triangles.len(),
{
    if triangles.len() == 0 {
        Moments::none()
    } else {
        let t = triangles.last();
        moments_about(triangles.drop_last(), mean).with(t.a.minus(mean)).with(
            t.b.minus(mean),
        ).with(t.c.minus(mean))
    }
}

/// How the corners scatter about their mean.
pub fn covariance_matrix(triangles: &Vec<Triangle>, mean: Vec3) -> (result: Mat3)
    requires
        triangles.len() * 3 <= usize::MAX,
    ensures
        result == moments_about(triangles@, mean).mean(corner_count(triangles@)),
{
    let mut moments = Moments::none();
    let mut i: usize = 0;
    while i < triangles.len()
        invariant
            i <= triangles.len(),
            moments == moments_about(triangles@.take(i as int), mean),
        decreases triangles.len() - i,
    {
        let t = triangles[i];
        moments = moments.with(t.a.minus(mean)).with(t.b.minus(mean)).with(t.c.minus(mean));
        i = i + 1;
        assert(triangles@.take(i as int).drop_last() =~= triangles@.take(i - 1));
    }
    assert(triangles@.take(i as int) =~= triangles@);
    let count = triangles.len() * 3;
    moments.mean(Binary32::from_count(count as u64))
}

/// The direction after up to `rounds` images, each made a unit vector. The
/// refinement ends early at an image too short to have a direction.
pub open spec fn refined(matrix: Mat3, v: Vec3, rounds: nat) -> Vec3
    decreases rounds,
{
    let image = matrix.apply(v);
    if rounds == 0 || image.length_squared().lt(Binary32::of(NO_DIRECTION)) {
        v
    } else {
        refined(matrix, image.normalize(), (rounds - 1) as nat)
    }
}

/// Approximates the direction that a matrix stretches most.
pub fn principal_eigenvector(matrix: Mat3, initial: Vec3) -> (result: Vec3)
    ensures
        result == refined(matrix, initial.normalize(), REFINEMENTS as nat),
{
    let mut v = initial.normalize();
    let mut left: u32 = REFINEMENTS;
    while left > 0
        invariant
            refined(matrix, v, left as nat) == refined(
                matrix,
                initial.normalize(),
                REFINEMENTS as nat,
            ),
        decreases left,
    {
        let next = matrix.apply(v);
        if next.length_squared().lt(Binary32::of(NO_DIRECTION)) {
            return v;
        }
        v = next.normalize();
        left = left - 1;
    }
    v
}

/// The matrix whose columns are `a` times the components of `b`.
#[verifier::allow_in_spec]
pub fn outer_product(a: Vec3, b: Vec3) -> Mat3
    returns
        Mat3::from_cols(a.scaled(b.x), a.scaled(b.y), a.scaled(b.z)),
{
    Mat3::from_cols(a.scaled(b.x), a.scaled(b.y), a.scaled(b.z))
}

/// The coordinate axis that is least parallel to a vector.
pub open spec fn least_parallel_axis(v: Vec3) -> Vec3 {
    if v.x.abs().le(v.y.abs()) && v.x.abs().le(v.z.abs()) {
        Vec3::x_unit()
    } else if v.y.abs().le(v.z.abs()) {
        Vec3::y_unit()
    } else {
        Vec3::z_unit()
    }
}

/// A unit vector at right angles to a vector.
pub fn perpendicular(v: Vec3) -> (result: Vec3)
    ensures
        result == v.cross(least_parallel_axis(v)).normalize(),
{
    let candidate = if v.x.abs().le(v.y.abs()) && v.x.abs().le(v.z.abs()) {
        Vec3::x_unit()
    } else if v.y.abs().le(v.z.abs()) {
        Vec3::y_unit()
    } else {
        Vec3::z_unit()
    };
    v.cross(candidate).normalize()
}

/// The axes along which the corners scatter most and second most, and a third
/// one at right angles to both.
pub open spec fn principal_basis(covariance: Mat3) -> Mat3 {
    let x = refined(covariance, Vec3::x_unit().normalize(), REFINEMENTS as nat);
    let strength = x.dot(covariance.apply(x));
    let deflated = covariance.minus(outer_product(x, x).scaled(strength));
    let second = refined(deflated, Vec3::y_unit().normalize(), REFINEMENTS as nat);
    let across = second.minus(x.scaled(second.dot(x)));
    let towards = if across.length_squared().lt(Binary32::of(NO_SECOND_AXIS)) {
        x.cross(least_parallel_axis(x)).normalize()
    } else {
        across.normalize()
    };
    let third = x.cross(towards).normalize();
    let y = third.cross(x).normalize();
    let z = if x.cross(y).dot(third).lt(Binary32::of(ZERO)) {
        third.neg()
    } else {
        third
    };
    Mat3::from_cols(x, y, z)
}

/// The least coordinates of all corners, seen from `mean` along the rows of
/// `inverse`.
pub open spec fn lowest(triangles: Seq<Triangle>, inverse: Mat3, mean: Vec3) -> Vec3
    decreases triangles.len(),
{
    if triangles.len() == 0 {
        Vec3::splat(Binary32::of(INFINITY))
    } else {
        let t = triangles.last();
        lowest(triangles.drop_last(), inverse, mean).least(inverse.apply(t.a.minus(mean))).least(
            inverse.apply(t.b.minus(mean)),
        ).least(inverse.apply(t.c.minus(mean)))
    }
}

/// The greatest coordinates, as `lowest` gives the least.
pub open spec fn highest(triangles: Seq<Triangle>, inverse: Mat3, mean: Vec3) -> Vec3
    decreases triangles.len(),
{
    if triangles.len() == 0 {
        Vec3::splat(Binary32::of(NEG_INFINITY))
    } else {
        let t = triangles.last();
        highest(triangles.drop_last(), inverse, mean).greatest(
            inverse.apply(t.a.minus(mean)),
        ).greatest(inverse.apply(t.b.minus(mean))).greatest(inverse.apply(t.c.minus(mean)))
    }
}

/// The box with the given axes that just holds all corners.
#[verifier::opaque]
pub open spec fn bounding_box(triangles: Seq<Triangle>, basis: Mat3) -> BoxTransform {
    let mean = mean_corner(triangles);
    let inverse = basis.transpose();
    let low = lowest(triangles, inverse, mean);
    let high = highest(triangles, inverse, mean);
    BoxTransform {
        position: mean.plus(basis.apply(low.plus(high).scaled(Binary32::of(HALF)))),
        rotation: Quat::from_basis(basis),
        scale: high.minus(low),
    }
}

/// Fits a box with the given axes around the triangles.
pub fn fit_obb_in_basis(triangles: &Vec<Triangle>, basis: Mat3) -> (result: BoxTransform)
    requires
        triangles.len() * 3 <= usize::MAX,
    ensures
        result == bounding_box(triangles@, basis),
{
    proof {
        reveal(bounding_box);
    }
    let mean = mean_of_corners(triangles);
    let inverse = basis.transpose();
    let mut low = Vec3::splat(Binary32::of(INFINITY));
    let mut high = Vec3::splat(Binary32::of(NEG_INFINITY));
    let mut i: usize = 0;
    while i < triangles.len()
        invariant
            i <= triangles.len(),
            low == lowest(triangles@.take(i as int), inverse, mean),
            high == highest(triangles@.take(i as int), inverse, mean),
        decreases triangles.len() - i,
    {
        let t = triangles[i];
        let a = inverse.apply(t.a.minus(mean));
        let b = inverse.apply(t.b.minus(mean));
        let c = inverse.apply(t.c.minus(mean));
        low = low.least(a).least(b).least(c);
        high = high.greatest(a).greatest(b).greatest(c);
        i = i + 1;
        assert(triangles@.take(i as int).drop_last() =~= triangles@.take(i - 1));
    }
    assert(triangles@.take(i as int) =~= triangles@);
    let centre = low.plus(high).scaled(Binary32::of(HALF));
    BoxTransform {
        position: mean.plus(basis.apply(centre)),
        rotation: Quat::from_basis(basis),
        scale: high.minus(low),
    }
}

/// The box along the principal axes; for no triangles an empty one at the
/// origin.
#[verifier::opaque]
pub open spec fn principal_box(triangles: Seq<Triangle>) -> BoxTransform {
    if triangles.len() == 0 {
        BoxTransform { position: Vec3::zero(), rotation: Quat::identity(), scale: Vec3::zero() }
    } else {
        let covariance = moments_about(triangles, mean_corner(triangles)).mean(
            corner_count(triangles),
        );
        bounding_box(triangles, principal_basis(covariance))
    }
}

/// Fits a box along the principal axes of the triangles.
pub fn fit_obb(triangles: &Vec<Triangle>) -> (result: BoxTransform)
    requires
        triangles.len() * 3 <= usize::MAX,
    ensures
        result == principal_box(triangles@),
{
    proof {
        reveal(principal_box);
    }
    if triangles.len() == 0 {
        return BoxTransform {
            position: Vec3::zero(),
            rotation: Quat::identity(),
            scale: Vec3::zero(),
        };
    }
    let mean = mean_of_corners(triangles);
    let covariance = covariance_matrix(triangles, mean);
    let x = principal_eigenvector(covariance, Vec3::x_unit());

    // The second axis is the principal one of what the first leaves over.
    let strength = x.dot(covariance.apply(x));
    let deflated = covariance.minus(outer_product(x, x).scaled(strength));
    let second = principal_eigenvector(deflated, Vec3::y_unit());
    let across = second.minus(x.scaled(second.dot(x)));
    let towards = if across.length_squared().lt(Binary32::of(NO_SECOND_AXIS)) {
        perpendicular(x)
    } else {
        across.normalize()
    };

    let third = x.cross(towards).normalize();
    let y = third.cross(x).normalize();
    let z = if x.cross(y).dot(third).lt(Binary32::of(ZERO)) {
        third.neg()
    } else {
        third
    };
    fit_obb_in_basis(triangles, Mat3::from_cols(x, y, z))
}

/// The index of the first triangle that meets a condition, if any does.
pub open spec fn first_index(
    triangles: Seq<Triangle>,
    condition: spec_fn(Triangle) -> bool,
) -> Option<int>
    decreases triangles.len(),
{
    if triangles.len() == 0 {
        None
    } else {
        match first_index(triangles.drop_last(), condition) {
            Some(i) => Some(i),
            None => if condition(triangles.last()) {
                Some(triangles.len() - 1)
            } else {
                None
            },
        }
    }
}

/// Whether a triangle is large enough for its normal to have a direction.
pub open spec fn has_normal(t: Triangle) -> bool {
    Binary32::of(NO_DIRECTION).lt(triangle_normal(t).length_squared())
}

/// The part of a triangle's normal at right angles to `x`.
pub open spec fn normal_across(t: Triangle, x: Vec3) -> Vec3 {
    triangle_normal(t).minus(x.scaled(triangle_normal(t).dot(x)))
}

/// Whether a triangle is not parallel to the faces across `x`.
pub open spec fn tilted_against(t: Triangle, x: Vec3) -> bool {
    !normal_across(t, x).length_squared().le(Binary32::of(NO_DIRECTION))
}

/// Axes along the normals of the first two faces that are not parallel.
pub open spec fn face_basis(triangles: Seq<Triangle>) -> Option<Mat3> {
    match first_index(triangles, |t: Triangle| has_normal(t)) {
        None => None,
        Some(i) => {
            let x = triangle_normal(triangles[i]).normalize();
            match first_index(triangles, |t: Triangle| tilted_against(t, x)) {
                None => None,
                Some(j) => {
                    let y = normal_across(triangles[j], x).normalize();
                    Some(Mat3::from_cols(x, y, x.cross(y)))
                },
            }
        },
    }
}

/// A condition that fails up to `i` and holds there is first met at `i`.
proof fn lemma_first_index(triangles: Seq<Triangle>, condition: spec_fn(Triangle) -> bool, i: int)
    requires
        0 <= i <= triangles.len(),
        forall|k: int| 0 <= k < i ==> !condition(#[trigger] triangles[k]),
        i < triangles.len() ==> condition(triangles[i]),
    ensures
        first_index(triangles, condition) == if i < triangles.len() {
            Some(i)
        } else {
            None
        },
    decreases triangles.len(),
{
    if triangles.len() > 0 {
        let shorter = triangles.drop_last();
        assert(forall|k: int| 0 <= k < shorter.len() ==> shorter[k] == triangles[k]);
        if i < triangles.len() {
            lemma_first_index(shorter, condition, i);
        } else {
            lemma_first_index(shorter, condition, i - 1);
        }
    }
}

/// Axes along the faces of the triangles, where two faces are not parallel.
pub fn face_aligned_basis(triangles: &Vec<Triangle>) -> (result: Option<Mat3>)
    ensures
        result == face_basis(triangles@),
{
    let mut i: usize = 0;
    while i < triangles.len() && !Binary32::of(NO_DIRECTION).lt(
        triangle_normal(triangles[i]).length_squared(),
    )
        invariant
            i <= triangles.len(),
            forall|k: int| 0 <= k < i ==> !has_normal(#[trigger] triangles@[k]),
        decreases triangles.len() - i,
    {
        i = i + 1;
    }
    proof {
        lemma_first_index(triangles@, |t: Triangle| has_normal(t), i as int);
    }
    if i == triangles.len() {
        return None;
    }
    let x = triangle_normal(triangles[i]).normalize();
    let ghost tilted = |t: Triangle| tilted_against(t, x);
    let mut j: usize = 0;
    while j < triangles.len()
        invariant
            i < triangles.len(),
            j <= triangles.len(),
            x == triangle_normal(triangles@[i as int]).normalize(),
            tilted == (|t: Triangle| tilted_against(t, x)),
            first_index(triangles@, |t: Triangle| has_normal(t)) == Some(i as int),
            forall|k: int| 0 <= k < j ==> !tilted_against(#[trigger] triangles@[k], x),
        decreases triangles.len() - j,
    {
        let normal = triangle_normal(triangles[j]);
        let across = normal.minus(x.scaled(normal.dot(x)));
        if !across.length_squared().le(Binary32::of(NO_DIRECTION)) {
            proof {
                lemma_first_index(triangles@, tilted, j as int);
            }
            let y = across.normalize();
            return Some(Mat3::from_cols(x, y, x.cross(y)));
        }
        j = j + 1;
    }
    proof {
        lemma_first_index(triangles@, tilted, j as int);
    }
    None
}

/// The number of points in the grid of corners, edge middles, face middles and
/// centre of a box.
pub const GRID_POINTS: usize = 27;

/// The grid point at the centre of a box.
pub const GRID_CENTRE: usize = 13;

/// The coordinate of a grid point along one axis of a box of extent two.
pub open spec fn spec_grid_coordinate(place: usize) -> Binary32 {
    if place == 0 {
        Binary32::of(NEG_ONE)
    } else if place == 1 {
        Binary32::of(ZERO)
    } else {
        Binary32::of(ONE)
    }
}

#[verifier::when_used_as_spec(spec_grid_coordinate)]
pub fn grid_coordinate(place: usize) -> (result: Binary32)
    ensures
        result == spec_grid_coordinate(place),
{
    if place == 0 {
        Binary32::of(NEG_ONE)
    } else if place == 1 {
        Binary32::of(ZERO)
    } else {
        Binary32::of(ONE)
    }
}

/// A grid point of a box, in the coordinates of the mesh.
pub open spec fn grid_point(obb: BoxTransform, k: usize) -> Vec3 {
    let place = Vec3::new(
        grid_coordinate(k / 9),
        grid_coordinate(k / 3 % 3),
        grid_coordinate(k % 3),
    );
    obb.position.plus(
        obb.rotation.basis().apply(obb.scale.scaled(Binary32::of(HALF)).times(place)),
    )
}

/// The square of the distance from a point to the nearest of the triangles;
/// infinite where there is none.
pub open spec fn clearance(triangles: Seq<Triangle>, point: Vec3) -> Binary32
    decreases triangles.len(),
{
    if triangles.len() == 0 {
        Binary32::of(INFINITY)
    } else {
        clearance(triangles.drop_last(), point).least(
            nearest_offset(point, triangles.last()).length_squared(),
        )
    }
}

fn squared_clearance(triangles: &Vec<Triangle>, point: Vec3) -> (result: Binary32)
    ensures
        result == clearance(triangles@, point),
{
    let mut least = Binary32::of(INFINITY);
    let mut i: usize = 0;
    while i < triangles.len()
        invariant
            i <= triangles.len(),
            least == clearance(triangles@.take(i as int), point),
        decreases triangles.len() - i,
    {
        least = least.least(point_triangle_distance_squared(point, triangles[i]));
        i = i + 1;
        assert(triangles@.take(i as int).drop_last() =~= triangles@.take(i - 1));
    }
    assert(triangles@.take(i as int) =~= triangles@);
    least
}

/// The greatest clearance among the first `count` grid points of a box, its
/// centre left out.
pub open spec fn worst_clearance(
    triangles: Seq<Triangle>,
    obb: BoxTransform,
    count: nat,
) -> Binary32
    decreases count,
{
    if count == 0 {
        Binary32::of(ZERO)
    } else {
        let k = (count - 1) as nat;
        let before = worst_clearance(triangles, obb, k);
        if k == GRID_CENTRE {
            before
        } else {
            before.greatest(clearance(triangles, grid_point(obb, k as usize)))
        }
    }
}

/// How far the surface of a box is from the triangles at worst, over its
/// corners and the middles of its edges and faces.
#[verifier::opaque]
pub open spec fn surface_error(triangles: Seq<Triangle>, obb: BoxTransform) -> Binary32 {
    worst_clearance(triangles, obb, GRID_POINTS as nat).root()
}

/// Measures how far the surface of a box is from the triangles.
pub fn box_surface_error(triangles: &Vec<Triangle>, obb: BoxTransform) -> (result: Binary32)
    ensures
        result == surface_error(triangles@, obb),
{
    proof {
        reveal(surface_error);
    }
    let basis = obb.rotation.basis();
    let half_scale = obb.scale.scaled(Binary32::of(HALF));
    let mut worst = Binary32::of(ZERO);
    let mut k: usize = 0;
    while k < GRID_POINTS
        invariant
            k <= GRID_POINTS,
            basis == obb.rotation.basis(),
            half_scale == obb.scale.scaled(Binary32::of(HALF)),
            worst == worst_clearance(triangles@, obb, k as nat),
        decreases GRID_POINTS - k,
    {
        if k != GRID_CENTRE {
            let place = Vec3::new(
                grid_coordinate(k / 9),
                grid_coordinate(k / 3 % 3),
                grid_coordinate(k % 3),
            );
            let point = obb.position.plus(basis.apply(half_scale.times(place)));
            worst = worst.greatest(squared_clearance(triangles, point));
        }
        k = k + 1;
    }
    worst.root()
}

/// No comparison with a clearance is lost to what is not a number.
pub proof fn law_clearance_is_a_number(triangles: Seq<Triangle>, point: Vec3)
    ensures
        !clearance(triangles, point).is_nan(),
    decreases triangles.len(),
{
    reveal(Binary32::spec_lt);
    if triangles.len() > 0 {
        law_clearance_is_a_number(triangles.drop_last(), point);
    }
}

pub(crate) proof fn lemma_worst_clearance_grows(
    triangles: Seq<Triangle>,
    obb: BoxTransform,
    k: nat,
    count: nat,
)
    requires
        k < count <= GRID_POINTS,
    ensures
        Binary32::of(ZERO).le(worst_clearance(triangles, obb, count)),
        !worst_clearance(triangles, obb, count).negative(),
        k != GRID_CENTRE ==> clearance(triangles, grid_point(obb, k as usize)).le(
            worst_clearance(triangles, obb, count),
        ),
    decreases count,
{
    reveal(Binary32::spec_lt);
    reveal(Binary32::spec_le);
    let last = (count - 1) as nat;
    law_clearance_is_a_number(triangles, grid_point(obb, last as usize));
    law_clearance_is_a_number(triangles, grid_point(obb, k as usize));
    if last > 0 {
        lemma_worst_clearance_grows(
            triangles,
            obb,
            if k < last {
                k
            } else {
                0
            },
            last,
        );
    }
    reveal_with_fuel(worst_clearance, 2);
}

/// The worst clearance is a number that is not negative, and no grid point on
/// the surface of the box has a greater one.
pub proof fn law_worst_clearance_bounds_the_surface(
    triangles: Seq<Triangle>,
    obb: BoxTransform,
    k: nat,
)
    requires
        k < GRID_POINTS,
        k != GRID_CENTRE,
    ensures
        Binary32::of(ZERO).le(worst_clearance(triangles, obb, GRID_POINTS as nat)),
        clearance(triangles, grid_point(obb, k as usize)).le(
            worst_clearance(triangles, obb, GRID_POINTS as nat),
        ),
{
    lemma_worst_clearance_grows(triangles, obb, k, GRID_POINTS as nat);
}

/// Surface errors can always be compared: each is a number that is not
/// negative.
pub proof fn law_surface_error_is_a_number(triangles: Seq<Triangle>, obb: BoxTransform)
    ensures
        !surface_error(triangles, obb).is_nan(),
        Binary32::of(ZERO).le(surface_error(triangles, obb)),
{
    reveal(surface_error);
    reveal(Binary32::spec_le);
    lemma_worst_clearance_grows(triangles, obb, 0, GRID_POINTS as nat);
    law_root_is_a_number(worst_clearance(triangles, obb, GRID_POINTS as nat));
}

/// Whether every coordinate is a number.
pub open spec fn numeric(v: Vec3) -> bool {
    !v.x.is_nan() && !v.y.is_nan() && !v.z.is_nan()
}

/// Whether no coordinate of one point is greater than that of another.
pub open spec fn nowhere_above(low: Vec3, high: Vec3) -> bool {
    low.x.le(high.x) && low.y.le(high.y) && low.z.le(high.z)
}

/// Whether a corner is one of a triangle.
pub open spec fn is_corner(t: Triangle, corner: Vec3) -> bool {
    corner == t.a || corner == t.b || corner == t.c
}

/// Whether all corners, seen from `mean` along the rows of `inverse`, have
/// coordinates that are numbers.
pub open spec fn seen_as_numbers(triangles: Seq<Triangle>, inverse: Mat3, mean: Vec3) -> bool {
    forall|i: int, corner: Vec3|
        0 <= i < triangles.len() && #[trigger] is_corner(triangles[i], corner) ==> numeric(
            inverse.apply(corner.minus(mean)),
        )
}

proof fn lemma_least_is_below(a: Vec3, b: Vec3, c: Vec3)
    requires
        numeric(a),
        numeric(b),
    ensures
        numeric(a.least(b)),
        nowhere_above(a.least(b), b),
        nowhere_above(a, c) || nowhere_above(b, c) ==> nowhere_above(a.least(b), c),
{
    reveal(Binary32::spec_lt);
    reveal(Binary32::spec_le);
}

proof fn lemma_greatest_is_above(a: Vec3, b: Vec3, c: Vec3)
    requires
        numeric(a),
        numeric(b),
    ensures
        numeric(a.greatest(b)),
        nowhere_above(b, a.greatest(b)),
        nowhere_above(c, a) || nowhere_above(c, b) ==> nowhere_above(c, a.greatest(b)),
{
    reveal(Binary32::spec_lt);
    reveal(Binary32::spec_le);
}

proof fn lemma_shorter_is_seen(triangles: Seq<Triangle>, inverse: Mat3, mean: Vec3)
    requires
        seen_as_numbers(triangles, inverse, mean),
        triangles.len() > 0,
    ensures
        seen_as_numbers(triangles.drop_last(), inverse, mean),
        numeric(inverse.apply(triangles.last().a.minus(mean))),
        numeric(inverse.apply(triangles.last().b.minus(mean))),
        numeric(inverse.apply(triangles.last().c.minus(mean))),
{
    let last = triangles.len() - 1;
    assert(is_corner(triangles[last], triangles.last().a));
    assert(is_corner(triangles[last], triangles.last().b));
    assert(is_corner(triangles[last], triangles.last().c));
    assert forall|i: int, corner: Vec3|
        0 <= i < last && #[trigger] is_corner(triangles.drop_last()[i], corner) implies numeric(
        inverse.apply(corner.minus(mean)),
    ) by {
        assert(is_corner(triangles[i], corner));
    }
}

proof fn lemma_bounds_are_numbers(triangles: Seq<Triangle>, inverse: Mat3, mean: Vec3)
    requires
        seen_as_numbers(triangles, inverse, mean),
    ensures
        numeric(lowest(triangles, inverse, mean)),
        numeric(highest(triangles, inverse, mean)),
    decreases triangles.len(),
{
    if triangles.len() > 0 {
        lemma_shorter_is_seen(triangles, inverse, mean);
        lemma_bounds_are_numbers(triangles.drop_last(), inverse, mean);
        let low = lowest(triangles.drop_last(), inverse, mean);
        let high = highest(triangles.drop_last(), inverse, mean);
        let a = inverse.apply(triangles.last().a.minus(mean));
        let b = inverse.apply(triangles.last().b.minus(mean));
        let c = inverse.apply(triangles.last().c.minus(mean));
        lemma_least_is_below(low, a, a);
        lemma_least_is_below(low.least(a), b, a);
        lemma_least_is_below(low.least(a).least(b), c, a);
        lemma_greatest_is_above(high, a, a);
        lemma_greatest_is_above(high.greatest(a), b, a);
        lemma_greatest_is_above(high.greatest(a).greatest(b), c, a);
    }
}

/// The bounds of a box hold every corner, as far as coordinates along its axes
/// are numbers.
pub proof fn law_bounds_hold_every_corner(
    triangles: Seq<Triangle>,
    inverse: Mat3,
    mean: Vec3,
    i: int,
    corner: Vec3,
)
    requires
        seen_as_numbers(triangles, inverse, mean),
        0 <= i < triangles.len(),
        is_corner(triangles[i], corner),
    ensures
        nowhere_above(lowest(triangles, inverse, mean), inverse.apply(corner.minus(mean))),
        nowhere_above(inverse.apply(corner.minus(mean)), highest(triangles, inverse, mean)),
    decreases triangles.len(),
{
    let shorter = triangles.drop_last();
    lemma_shorter_is_seen(triangles, inverse, mean);
    lemma_bounds_are_numbers(shorter, inverse, mean);
    let low = lowest(shorter, inverse, mean);
    let high = highest(shorter, inverse, mean);
    let a = inverse.apply(triangles.last().a.minus(mean));
    let b = inverse.apply(triangles.last().b.minus(mean));
    let c = inverse.apply(triangles.last().c.minus(mean));
    let seen = inverse.apply(corner.minus(mean));
    if i < triangles.len() - 1 {
        assert(is_corner(shorter[i], corner));
        law_bounds_hold_every_corner(shorter, inverse, mean, i, corner);
    }
    lemma_least_is_below(low, a, seen);
    lemma_least_is_below(low.least(a), b, seen);
    lemma_least_is_below(low.least(a).least(b), c, seen);
    lemma_greatest_is_above(high, a, seen);
    lemma_greatest_is_above(high.greatest(a), b, seen);
    lemma_greatest_is_above(high.greatest(a).greatest(b), c, seen);
}

} // verus!
