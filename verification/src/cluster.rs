//! Clusters of triangles with the box that stands for them.
use crate::binary32::Binary32;
use crate::fitting::{
    bounding_box, box_surface_error, face_aligned_basis, face_basis, fit_obb, fit_obb_in_basis,
    principal_box, surface_error, BoxTransform,
};
use crate::triangle::{halves, split_triangle, Triangle};
use crate::vector::Vec3;
use vstd::prelude::*;

verus! {

/// Triangles, their box, and how far the surface of the box is from them.
pub struct Cluster {
    pub triangles: Vec<Triangle>,
    pub obb: BoxTransform,
    pub surface_error: Binary32,
}

/// What a [`Cluster`] stands for.
#[verifier::ext_equal]
pub struct ClusterView {
    pub triangles: Seq<Triangle>,
    pub obb: BoxTransform,
    pub surface_error: Binary32,
}

impl View for Cluster {
    type V = ClusterView;

    open spec fn view(&self) -> ClusterView {
        ClusterView {
            triangles: self.triangles@,
            obb: self.obb,
            surface_error: self.surface_error,
        }
    }
}

/// The box for some triangles. It lies along their principal axes, unless
/// there are four or more of them and a box along their faces is closer.
#[verifier::opaque]
pub open spec fn best_box(triangles: Seq<Triangle>) -> BoxTransform {
    let principal = principal_box(triangles);
    match face_basis(triangles) {
        Some(basis) if triangles.len() >= 4 && surface_error(
            triangles,
            bounding_box(triangles, basis),
        ).lt(surface_error(triangles, principal)) => bounding_box(triangles, basis),
        _ => principal,
    }
}

/// The cluster of some triangles.
pub open spec fn fitted(triangles: Seq<Triangle>) -> ClusterView {
    ClusterView {
        triangles,
        obb: best_box(triangles),
        surface_error: surface_error(triangles, best_box(triangles)),
    }
}

/// Fits a box to triangles.
pub fn make_cluster(triangles: Vec<Triangle>) -> (result: Cluster)
    requires
        triangles.len() * 3 <= usize::MAX,
    ensures
        result@ == fitted(triangles@),
{
    proof {
        reveal(best_box);
    }
    let mut obb = fit_obb(&triangles);
    let mut surface_error = box_surface_error(&triangles, obb);

    // The principal axes of symmetric triangles, such as those of a cube, are
    // arbitrary; the normals of the faces keep the edges.
    if triangles.len() >= 4 {
        if let Some(basis) = face_aligned_basis(&triangles) {
            let candidate = fit_obb_in_basis(&triangles, basis);
            let candidate_error = box_surface_error(&triangles, candidate);
            if candidate_error.lt(surface_error) {
                obb = candidate;
                surface_error = candidate_error;
            }
        }
    }
    Cluster { triangles, obb, surface_error }
}

/// The axis of a box along which it is longest.
#[verifier::opaque]
pub open spec fn spec_longest_axis(obb: BoxTransform) -> Vec3 {
    let axes = obb.rotation.basis();
    let scale = obb.scale;
    if scale.y.le(scale.x) && scale.z.le(scale.x) {
        axes.x_axis
    } else if scale.z.le(scale.y) {
        axes.y_axis
    } else {
        axes.z_axis
    }
}

#[verifier::when_used_as_spec(spec_longest_axis)]
pub fn longest_axis(obb: BoxTransform) -> (result: Vec3)
    ensures
        result == spec_longest_axis(obb),
{
    proof {
        reveal(spec_longest_axis);
    }
    let axes = obb.rotation.basis();
    let scale = obb.scale;
    if scale.y.le(scale.x) && scale.z.le(scale.x) {
        axes.x_axis
    } else if scale.z.le(scale.y) {
        axes.y_axis
    } else {
        axes.z_axis
    }
}

/// How far along an axis a triangle lies, as a place in the total order.
#[verifier::allow_in_spec]
pub fn place_along(triangle: Triangle, axis: Vec3) -> i64
    returns
        triangle.centroid().dot(axis).rank(),
{
    triangle.centroid().dot(axis).rank()
}

/// Reorders triangles around the one that belongs at `middle` along an axis.
///
/// This is `select_nth_unstable_by_key` of the standard library: the same
/// triangles remain, none before `middle` lies farther along the axis than the
/// one there, and none after it lies less far. In which order the triangles on
/// either side come out is not said.
#[verifier::external_body]
fn select_along(triangles: &mut Vec<Triangle>, middle: usize, axis: Vec3)
    requires
        middle < old(triangles).len(),
    ensures
        final(triangles)@.to_multiset() == old(triangles)@.to_multiset(),
        forall|i: int|
            0 <= i < middle ==> place_along(#[trigger] final(triangles)@[i], axis) <= place_along(
                final(triangles)@[middle as int],
                axis,
            ),
        forall|i: int|
            middle < i < final(triangles)@.len() ==> place_along(
                final(triangles)@[middle as int],
                axis,
            ) <= place_along(#[trigger] final(triangles)@[i], axis),
{
    triangles.select_nth_unstable_by_key(middle, |triangle| place_along(*triangle, axis));
}

/// Whether `left` and `right` are the lower and the upper half of some
/// triangles along an axis: together they are the same triangles, the odd one
/// is on the right, and no triangle on the left lies farther along than one on
/// the right.
pub open spec fn parted(
    triangles: Seq<Triangle>,
    axis: Vec3,
    left: Seq<Triangle>,
    right: Seq<Triangle>,
) -> bool {
    &&& (left + right).to_multiset() == triangles.to_multiset()
    &&& left.len() == triangles.len() / 2
    &&& left.len() + right.len() == triangles.len()
    &&& forall|i: int, j: int|
        0 <= i < left.len() && 0 <= j < right.len() ==> place_along(#[trigger] left[i], axis)
            <= place_along(#[trigger] right[j], axis)
}

/// Whether a cluster may be split into `a` and `b`. A single triangle is cut
/// in two; several are parted in the middle, along the longest axis of their
/// box.
pub open spec fn splits_into(cluster: ClusterView, a: ClusterView, b: ClusterView) -> bool {
    &&& a == fitted(a.triangles)
    &&& b == fitted(b.triangles)
    &&& if cluster.triangles.len() == 1 {
        let (first, second) = halves(cluster.triangles[0]);
        a.triangles == seq![first] && b.triangles == seq![second]
    } else {
        parted(cluster.triangles, longest_axis(cluster.obb), a.triangles, b.triangles)
    }
}

/// Splits a cluster in two.
pub fn split_cluster(cluster: Cluster) -> (result: (Cluster, Cluster))
    requires
        cluster.triangles.len() > 0,
        cluster.triangles.len() * 3 <= usize::MAX,
    ensures
        splits_into(cluster@, result.0@, result.1@),
{
    if cluster.triangles.len() == 1 {
        let (first, second) = split_triangle(cluster.triangles[0]);
        let left: Vec<Triangle> = vec![first];
        let right: Vec<Triangle> = vec![second];
        assert(left@ =~= seq![first]);
        assert(right@ =~= seq![second]);
        return (make_cluster(left), make_cluster(right));
    }
    let axis = longest_axis(cluster.obb);
    let mut triangles = cluster.triangles;
    let middle = triangles.len() / 2;
    select_along(&mut triangles, middle, axis);
    let ghost reordered = triangles@;
    proof {
        reordered.to_multiset_ensures();
        cluster.triangles@.to_multiset_ensures();
    }
    let right = triangles.split_off(middle);
    let left = triangles;
    assert(left@ + right@ =~= reordered);
    (make_cluster(left), make_cluster(right))
}

} // verus!
