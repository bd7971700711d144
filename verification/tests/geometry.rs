//! The geometry against plain machine arithmetic.
use vortex_mesh::binary32::Binary32;
use vortex_mesh::cluster::{longest_axis, make_cluster, place_along, split_cluster};
use vortex_mesh::fitting::{
    box_surface_error, covariance_matrix, face_aligned_basis, fit_obb, fit_obb_in_basis,
    grid_coordinate, outer_product, perpendicular, principal_eigenvector, BoxTransform,
};
use vortex_mesh::triangle::{
    point_triangle_distance_squared, split_triangle, triangle_normal, Triangle, VANISHED,
};
use vortex_mesh::vector::{Mat3, Quat, Vec3};

type Corners = [glam::Vec3; 3];

fn number(value: f32) -> Binary32 {
    Binary32::of(value.to_bits())
}

fn vector(v: glam::Vec3) -> Vec3 {
    Vec3::new(number(v.x), number(v.y), number(v.z))
}

fn matrix(m: glam::Mat3) -> Mat3 {
    Mat3::from_cols(vector(m.x_axis), vector(m.y_axis), vector(m.z_axis))
}

fn triangle(t: &Corners) -> Triangle {
    Triangle {
        a: vector(t[0]),
        b: vector(t[1]),
        c: vector(t[2]),
        halvings: 0,
    }
}

fn same(ours: Binary32, native: f32) -> bool {
    if native.is_nan() {
        ours.is_nan()
    } else {
        ours.bits == native.to_bits()
    }
}

fn same_vector(ours: Vec3, native: glam::Vec3) -> bool {
    same(ours.x, native.x) && same(ours.y, native.y) && same(ours.z, native.z)
}

fn same_matrix(ours: Mat3, native: glam::Mat3) -> bool {
    same_vector(ours.x_axis, native.x_axis)
        && same_vector(ours.y_axis, native.y_axis)
        && same_vector(ours.z_axis, native.z_axis)
}

struct NativeBox {
    position: glam::Vec3,
    rotation: glam::Quat,
    scale: glam::Vec3,
}

fn same_box(ours: BoxTransform, native: &NativeBox) -> bool {
    same_vector(ours.position, native.position)
        && same_vector(ours.scale, native.scale)
        && same(ours.rotation.x, native.rotation.x)
        && same(ours.rotation.y, native.rotation.y)
        && same(ours.rotation.z, native.rotation.z)
        && same(ours.rotation.w, native.rotation.w)
}

/// A source of scattered numbers between minus one and one.
struct Scatter(u64);

impl Scatter {
    fn number(&mut self) -> f32 {
        self.0 = self
            .0
            .wrapping_mul(6_364_136_223_846_793_005)
            .wrapping_add(1_442_695_040_888_963_407);
        (self.0 >> 40) as f32 / 8_388_608.0 - 1.0
    }

    fn vector(&mut self) -> glam::Vec3 {
        glam::vec3(self.number(), self.number(), self.number())
    }

    fn triangles(&mut self, count: usize) -> Vec<Corners> {
        (0..count)
            .map(|_| {
                let at = self.vector() * 3.0;
                [at, at + self.vector(), at + self.vector()]
            })
            .collect()
    }
}

fn native_distance_squared(point: glam::Vec3, [a, b, c]: Corners) -> f32 {
    let (ab, ac, ap) = (b - a, c - a, point - a);
    let (d1, d2) = (ab.dot(ap), ac.dot(ap));
    if d1 <= 0.0 && d2 <= 0.0 {
        return ap.length_squared();
    }
    let bp = point - b;
    let (d3, d4) = (ab.dot(bp), ac.dot(bp));
    if d3 >= 0.0 && d4 <= d3 {
        return bp.length_squared();
    }
    let vc = d1 * d4 - d3 * d2;
    if vc <= 0.0 && d1 >= 0.0 && d3 <= 0.0 {
        return (ap - ab * (d1 / (d1 - d3))).length_squared();
    }
    let cp = point - c;
    let (d5, d6) = (ab.dot(cp), ac.dot(cp));
    if d6 >= 0.0 && d5 <= d6 {
        return cp.length_squared();
    }
    let vb = d5 * d2 - d1 * d6;
    if vb <= 0.0 && d2 >= 0.0 && d6 <= 0.0 {
        return (ap - ac * (d2 / (d2 - d6))).length_squared();
    }
    let va = d3 * d6 - d5 * d4;
    if va <= 0.0 && (d4 - d3) >= 0.0 && (d5 - d6) >= 0.0 {
        let w = (d4 - d3) / ((d4 - d3) + (d5 - d6));
        return (bp - (c - b) * w).length_squared();
    }
    let denominator = 1.0 / (va + vb + vc);
    (a + ab * (vb * denominator) + ac * (vc * denominator) - point).length_squared()
}

fn native_mean(triangles: &[Corners]) -> glam::Vec3 {
    triangles.iter().flatten().copied().sum::<glam::Vec3>() / (triangles.len() * 3) as f32
}

fn native_covariance(triangles: &[Corners], mean: glam::Vec3) -> glam::Mat3 {
    let mut sums = [0.0_f32; 6];
    for &point in triangles.iter().flatten() {
        let d = point - mean;
        sums[0] += d.x * d.x;
        sums[1] += d.x * d.y;
        sums[2] += d.x * d.z;
        sums[3] += d.y * d.y;
        sums[4] += d.y * d.z;
        sums[5] += d.z * d.z;
    }
    let n = (triangles.len() * 3) as f32;
    glam::Mat3::from_cols(
        glam::vec3(sums[0], sums[1], sums[2]) / n,
        glam::vec3(sums[1], sums[3], sums[4]) / n,
        glam::vec3(sums[2], sums[4], sums[5]) / n,
    )
}

fn native_direction(matrix: glam::Mat3, initial: glam::Vec3) -> glam::Vec3 {
    let mut v = initial.normalize();
    for _ in 0..32 {
        let next = matrix * v;
        if next.length_squared() < 1e-12 {
            break;
        }
        v = next.normalize();
    }
    v
}

fn native_perpendicular(v: glam::Vec3) -> glam::Vec3 {
    let axis = if v.x.abs() <= v.y.abs() && v.x.abs() <= v.z.abs() {
        glam::Vec3::X
    } else if v.y.abs() <= v.z.abs() {
        glam::Vec3::Y
    } else {
        glam::Vec3::Z
    };
    v.cross(axis).normalize()
}

fn native_outer(a: glam::Vec3, b: glam::Vec3) -> glam::Mat3 {
    glam::Mat3::from_cols(a * b.x, a * b.y, a * b.z)
}

fn native_box_in(triangles: &[Corners], basis: glam::Mat3) -> NativeBox {
    let mean = native_mean(triangles);
    let inverse = basis.transpose();
    let mut min = glam::Vec3::splat(f32::INFINITY);
    let mut max = glam::Vec3::splat(f32::NEG_INFINITY);
    for &point in triangles.iter().flatten() {
        let local = inverse * (point - mean);
        min = min.min(local);
        max = max.max(local);
    }
    NativeBox {
        position: mean + basis * ((min + max) * 0.5),
        rotation: glam::Quat::from_mat3(&basis),
        scale: max - min,
    }
}

fn native_box(triangles: &[Corners]) -> NativeBox {
    let covariance = native_covariance(triangles, native_mean(triangles));
    let x = native_direction(covariance, glam::Vec3::X);
    let deflated = covariance - native_outer(x, x) * x.dot(covariance * x);
    let mut y = native_direction(deflated, glam::Vec3::Y);
    y -= x * y.dot(x);
    y = if y.length_squared() < 1e-10 {
        native_perpendicular(x)
    } else {
        y.normalize()
    };
    let mut z = x.cross(y).normalize();
    y = z.cross(x).normalize();
    if x.cross(y).dot(z) < 0.0 {
        z = -z;
    }
    native_box_in(triangles, glam::Mat3::from_cols(x, y, z))
}

fn native_face_basis(triangles: &[Corners]) -> Option<glam::Mat3> {
    let normal = |t: &Corners| (t[1] - t[0]).cross(t[2] - t[0]);
    let x = triangles
        .iter()
        .map(normal)
        .find(|n| n.length_squared() > 1e-12)?
        .normalize();
    triangles.iter().map(normal).find_map(|n| {
        let y = n - x * n.dot(x);
        if y.length_squared() <= 1e-12 {
            return None;
        }
        let y = y.normalize();
        Some(glam::Mat3::from_cols(x, y, x.cross(y)))
    })
}

fn native_surface_error(triangles: &[Corners], obb: &NativeBox) -> f32 {
    let basis = glam::Mat3::from_quat(obb.rotation);
    let mut worst = 0.0_f32;
    for x in [-1.0, 0.0, 1.0] {
        for y in [-1.0, 0.0, 1.0] {
            for z in [-1.0, 0.0, 1.0] {
                if x == 0.0 && y == 0.0 && z == 0.0 {
                    continue;
                }
                let point = obb.position + basis * (obb.scale * 0.5 * glam::vec3(x, y, z));
                let nearest = triangles
                    .iter()
                    .map(|t| native_distance_squared(point, *t))
                    .fold(f32::INFINITY, f32::min);
                worst = worst.max(nearest);
            }
        }
    }
    worst.sqrt()
}

#[test]
fn distances_are_those_of_the_machine() {
    let mut scatter = Scatter(1);
    for _ in 0..20_000 {
        let corners = [scatter.vector(), scatter.vector(), scatter.vector()];
        let point = scatter.vector() * 1.5;
        let ours = point_triangle_distance_squared(vector(point), triangle(&corners));
        assert!(same(ours, native_distance_squared(point, corners)));
    }
}

#[test]
fn distances_reach_every_feature() {
    let t = triangle(&[
        glam::vec3(0.0, 0.0, 0.0),
        glam::vec3(4.0, 0.0, 0.0),
        glam::vec3(0.0, 4.0, 0.0),
    ]);
    let squared = |x: f32, y: f32, z: f32| {
        point_triangle_distance_squared(vector(glam::vec3(x, y, z)), t)
    };
    assert_eq!(squared(-3.0, -4.0, 0.0), number(25.0)); // corner a
    assert_eq!(squared(7.0, -4.0, 0.0), number(25.0)); // corner b
    assert_eq!(squared(-3.0, 8.0, 0.0), number(25.0)); // corner c
    assert_eq!(squared(1.0, -2.0, 0.0), number(4.0)); // edge from a to b
    assert_eq!(squared(-2.0, 1.0, 0.0), number(4.0)); // edge from a to c
    assert_eq!(squared(4.0, 4.0, 0.0), number(8.0)); // edge from b to c
    assert_eq!(squared(1.0, 1.0, 3.0), number(9.0)); // inside
}

#[test]
fn fitted_boxes_are_those_of_the_machine() {
    let mut scatter = Scatter(2);
    for count in 1..40 {
        let native = scatter.triangles(count);
        let ours: Vec<Triangle> = native.iter().map(triangle).collect();
        let mean = native_mean(&native);
        let covariance = native_covariance(&native, mean);
        assert!(same_matrix(covariance_matrix(&ours, vector(mean)), covariance));
        let direction = native_direction(covariance, glam::Vec3::X);
        assert!(same_vector(
            principal_eigenvector(matrix(covariance), Vec3::x_unit()),
            direction
        ));
        assert!(same_vector(
            perpendicular(vector(direction)),
            native_perpendicular(direction)
        ));
        assert!(same_matrix(
            outer_product(vector(direction), vector(mean)),
            native_outer(direction, mean)
        ));
        let principal = native_box(&native);
        let obb = fit_obb(&ours);
        assert!(same_box(obb, &principal));
        let principal_error = native_surface_error(&native, &principal);
        assert!(same(box_surface_error(&ours, obb), principal_error));
        let faces = native_face_basis(&native);
        assert_eq!(face_aligned_basis(&ours).is_some(), faces.is_some());
        let mut expected = (principal, principal_error);
        if let Some(basis) = faces {
            let aligned = native_box_in(&native, basis);
            assert!(same_matrix(face_aligned_basis(&ours).unwrap(), basis));
            assert!(same_box(fit_obb_in_basis(&ours, matrix(basis)), &aligned));
            let error = native_surface_error(&native, &aligned);
            if count >= 4 && error < principal_error {
                expected = (aligned, error);
            }
        }
        let cluster = make_cluster(ours);
        assert!(same_box(cluster.obb, &expected.0));
        assert!(same(cluster.surface_error, expected.1));
    }
}

#[test]
fn a_fitted_box_holds_every_corner() {
    let mut scatter = Scatter(5);
    for count in 1..30 {
        let native = scatter.triangles(count);
        let ours: Vec<Triangle> = native.iter().map(triangle).collect();
        let obb = fit_obb(&ours);
        let basis = obb.rotation.basis();
        for &corner in native.iter().flatten() {
            let local = basis.transpose().apply(vector(corner).minus(obb.position));
            for (at, extent) in [
                (local.x, obb.scale.x),
                (local.y, obb.scale.y),
                (local.z, obb.scale.z),
            ] {
                let at = f32::from_bits(at.bits).abs();
                assert!(at <= f32::from_bits(extent.bits) * 0.5 + 1.0e-4);
            }
        }
    }
}

#[test]
fn no_triangles_have_an_empty_box() {
    let obb = fit_obb(&vec![]);
    assert_eq!(obb.position, Vec3::zero());
    assert_eq!(obb.scale, Vec3::zero());
    assert_eq!(box_surface_error(&vec![], obb), number(f32::INFINITY));
    assert_eq!(face_aligned_basis(&vec![]), None);
}

#[test]
fn parallel_faces_give_no_basis() {
    let mut scatter = Scatter(3);
    let flat: Vec<Triangle> = (0..5)
        .map(|_| {
            let t: Vec<glam::Vec3> = (0..3)
                .map(|_| glam::vec3(scatter.number(), scatter.number(), 0.0))
                .collect();
            triangle(&[t[0], t[1], t[2]])
        })
        .collect();
    assert_eq!(face_aligned_basis(&flat), None);
    assert_eq!(
        triangle_normal(triangle(&[glam::Vec3::ZERO, glam::Vec3::X, glam::Vec3::Y])),
        Vec3::z_unit()
    );
    for (place, coordinate) in [-1.0, 0.0, 1.0].into_iter().enumerate() {
        assert_eq!(grid_coordinate(place), number(coordinate));
    }
}

#[test]
fn a_triangle_is_cut_across_its_longest_edge() {
    let (a, b, c) = (
        vector(glam::vec3(0.0, 0.0, 0.0)),
        vector(glam::vec3(8.0, 0.0, 0.0)),
        vector(glam::vec3(1.0, 2.0, 0.0)),
    );
    let midpoint = vector(glam::vec3(4.0, 0.0, 0.0));
    for (p, q, r) in [(a, b, c), (c, a, b), (b, c, a)] {
        let (first, second) = split_triangle(Triangle {
            a: p,
            b: q,
            c: r,
            halvings: 3,
        });
        assert_eq!((first.a, first.b, first.c), (a, midpoint, c));
        assert_eq!((second.a, second.b, second.c), (midpoint, b, c));
        assert_eq!((first.halvings, second.halvings), (4, 4));
    }
    let worn = Triangle {
        a,
        b,
        c,
        halvings: VANISHED,
    };
    assert_eq!(split_triangle(worn).0.halvings, VANISHED);
    // One half to the power of the bound is no binary64 number any more.
    assert_eq!(0.5_f64.powi(VANISHED as i32 - 1) * 0.5, 0.0);
    assert!(0.5_f64.powi(VANISHED as i32 - 1) > 0.0);
}

#[test]
fn a_cut_halves_the_area_and_keeps_the_winding() {
    let mut scatter = Scatter(6);
    for _ in 0..2_000 {
        let corners = [scatter.vector(), scatter.vector(), scatter.vector()];
        let t = triangle(&corners);
        let (first, second) = split_triangle(t);
        let whole = triangle_normal(t);
        for half in [first, second] {
            assert_eq!(half.halvings, 1);
            let normal = triangle_normal(half);
            for (part, all) in [
                (normal.x, whole.x),
                (normal.y, whole.y),
                (normal.z, whole.z),
            ] {
                let part = f32::from_bits(part.bits);
                let all = f32::from_bits(all.bits);
                assert!((2.0 * part - all).abs() < 1.0e-5);
            }
        }
        // The outer corners of the halves are the ends of a longest edge.
        let cut = f32::from_bits(first.a.distance_squared(second.b).bits);
        for (p, q) in [(t.a, t.b), (t.b, t.c), (t.c, t.a)] {
            assert!(f32::from_bits(p.distance_squared(q).bits) <= cut);
        }
        assert_eq!(first.b, second.a);
        assert_eq!(first.c, second.c);
    }
    let (first, second) = split_triangle(triangle(&[
        glam::vec3(0.0, 0.0, 0.0),
        glam::vec3(8.0, 0.0, 0.0),
        glam::vec3(1.0, 2.0, 0.0),
    ]));
    for half in [first, second] {
        let normal = triangle_normal(half);
        let native = [normal.x, normal.y, normal.z].map(|part| f32::from_bits(part.bits));
        assert_eq!(native, [0.0, 0.0, 8.0]);
    }
}

#[test]
fn the_order_of_corners_hardly_matters_to_a_distance() {
    let mut scatter = Scatter(7);
    for _ in 0..5_000 {
        let [a, b, c] = [scatter.vector(), scatter.vector(), scatter.vector()];
        // A sliver has no well-defined plane in rounded numbers.
        if (b - a).cross(c - a).length() < 0.1 {
            continue;
        }
        let point = vector(scatter.vector() * 2.0);
        let squared = |corners: Corners| {
            f32::from_bits(point_triangle_distance_squared(point, triangle(&corners)).bits)
        };
        let expected = squared([a, b, c]);
        for corners in [[a, c, b], [b, a, c], [b, c, a], [c, a, b], [c, b, a]] {
            assert!((squared(corners) - expected).abs() < 1.0e-4);
        }
    }
}

#[test]
fn swapped_corners_give_the_same_distance_to_corners_and_edges() {
    let corners = [
        glam::vec3(0.1, 0.2, 0.3),
        glam::vec3(4.7, 0.6, 0.1),
        glam::vec3(0.3, 3.9, 0.7),
    ];
    let [a, b, c] = corners;
    for point in [
        glam::vec3(-3.3, -4.1, 0.7),
        glam::vec3(7.9, -4.3, 0.2),
        glam::vec3(-3.1, 8.2, 0.9),
        glam::vec3(1.3, -2.6, 0.4),
        glam::vec3(-2.7, 1.9, 0.6),
    ] {
        assert_eq!(
            point_triangle_distance_squared(vector(point), triangle(&[a, b, c])),
            point_triangle_distance_squared(vector(point), triangle(&[a, c, b]))
        );
    }
}

#[test]
fn the_box_of_a_cluster_holds_every_corner() {
    let mut scatter = Scatter(8);
    for count in 1..30 {
        let native = scatter.triangles(count);
        let cluster = make_cluster(native.iter().map(triangle).collect());
        assert_eq!(cluster.triangles.len(), count);
        assert_eq!(
            cluster.surface_error,
            box_surface_error(&cluster.triangles, cluster.obb)
        );
        let basis = cluster.obb.rotation.basis();
        for &corner in native.iter().flatten() {
            let local = basis
                .transpose()
                .apply(vector(corner).minus(cluster.obb.position));
            for (at, extent) in [
                (local.x, cluster.obb.scale.x),
                (local.y, cluster.obb.scale.y),
                (local.z, cluster.obb.scale.z),
            ] {
                let at = f32::from_bits(at.bits).abs();
                assert!(at <= f32::from_bits(extent.bits) * 0.5 + 1.0e-4);
            }
        }
    }
}

#[test]
fn a_split_parts_triangles_along_the_longest_axis() {
    let mut scatter = Scatter(4);
    for count in 2..60 {
        let triangles: Vec<Triangle> = scatter.triangles(count).iter().map(triangle).collect();
        let mut before: Vec<String> = triangles.iter().map(|t| format!("{t:?}")).collect();
        let cluster = make_cluster(triangles);
        let axis = longest_axis(cluster.obb);
        let (left, right) = split_cluster(cluster);
        assert_eq!(left.triangles.len(), count / 2);
        assert_eq!(right.triangles.len(), count - count / 2);
        for l in &left.triangles {
            for r in &right.triangles {
                assert!(place_along(*l, axis) <= place_along(*r, axis));
            }
        }
        let mut after: Vec<String> = left
            .triangles
            .iter()
            .chain(&right.triangles)
            .map(|t| format!("{t:?}"))
            .collect();
        before.sort();
        after.sort();
        assert_eq!(before, after);
        assert_eq!(make_cluster(left.triangles).obb, left.obb);
    }
}

#[test]
fn a_lone_triangle_is_split_into_its_halves() {
    let t = triangle(&[
        glam::vec3(0.0, 0.0, 0.0),
        glam::vec3(8.0, 0.0, 0.0),
        glam::vec3(1.0, 2.0, 0.0),
    ]);
    let (left, right) = split_cluster(make_cluster(vec![t]));
    let (first, second) = split_triangle(t);
    assert_eq!(left.triangles, vec![first]);
    assert_eq!(right.triangles, vec![second]);
}

#[test]
fn the_longest_axis_is_that_of_the_greatest_extent() {
    let mut obb = make_cluster(vec![]).obb;
    for (scale, axis) in [
        ((3.0, 2.0, 1.0), Vec3::x_unit()),
        ((2.0, 3.0, 1.0), Vec3::y_unit()),
        ((2.0, 1.0, 3.0), Vec3::z_unit()),
        ((2.0, 2.0, 2.0), Vec3::x_unit()),
        ((1.0, 2.0, 2.0), Vec3::y_unit()),
    ] {
        obb.scale = vector(glam::vec3(scale.0, scale.1, scale.2));
        assert_eq!(longest_axis(obb), axis);
    }
}

#[test]
fn rotations_are_kept_by_quaternions() {
    let mut scatter = Scatter(9);
    for _ in 0..2_000 {
        let axis = scatter.vector().normalize();
        let turn = glam::Quat::from_axis_angle(axis, scatter.number() * 3.2);
        let basis = glam::Mat3::from_quat(turn);
        let back = Quat::from_basis(matrix(basis)).basis();
        for (ours, native) in [
            (back.x_axis, basis.x_axis),
            (back.y_axis, basis.y_axis),
            (back.z_axis, basis.z_axis),
        ] {
            let ours = [ours.x, ours.y, ours.z].map(|part| f32::from_bits(part.bits));
            for (part, expected) in ours.into_iter().zip(native.to_array()) {
                assert!((part - expected).abs() < 1.0e-5);
            }
        }
    }
}

#[test]
fn the_axes_of_boxes_are_orthonormal_and_right_handed() {
    let mut scatter = Scatter(10);
    for count in 1..40 {
        let ours: Vec<Triangle> = scatter.triangles(count).iter().map(triangle).collect();
        let basis = fit_obb(&ours).rotation.basis();
        let native = |v: Vec3| {
            glam::vec3(
                f32::from_bits(v.x.bits),
                f32::from_bits(v.y.bits),
                f32::from_bits(v.z.bits),
            )
        };
        let (x, y, z) = (native(basis.x_axis), native(basis.y_axis), native(basis.z_axis));
        for axis in [x, y, z] {
            assert!((axis.length_squared() - 1.0).abs() < 1.0e-4);
        }
        for (a, b) in [(x, y), (y, z), (z, x)] {
            assert!(a.dot(b).abs() < 1.0e-4);
        }
        assert!(x.cross(y).dot(z) > 0.99);
    }
}

#[test]
fn no_point_of_a_triangle_is_nearer_than_the_distance() {
    let mut scatter = Scatter(11);
    for _ in 0..300 {
        let corners = [scatter.vector(), scatter.vector(), scatter.vector()];
        let [a, b, c] = corners;
        if (b - a).cross(c - a).length() < 0.1 {
            continue;
        }
        let point = scatter.vector() * 2.0;
        let squared = point_triangle_distance_squared(vector(point), triangle(&corners));
        let squared = f32::from_bits(squared.bits);
        let mut least = f32::INFINITY;
        for i in 0..=40_u8 {
            for j in 0..=40 - i {
                let (v, w) = (f32::from(i) / 40.0, f32::from(j) / 40.0);
                let blend = a + (b - a) * v + (c - a) * w;
                least = least.min(point.distance_squared(blend));
            }
        }
        assert!(squared <= least + 1.0e-4);
        assert!(least - squared < 0.3);
    }
}

#[test]
fn normals_are_off_by_rounding_alone() {
    let mut scatter = Scatter(12);
    for _ in 0..2_000 {
        let corners = [
            scatter.vector() * 1000.0,
            scatter.vector() * 1000.0,
            scatter.vector() * 1000.0,
        ];
        let [a, b, c] = corners.map(|corner| corner.as_dvec3());
        let (p, q) = (b - a, c - a);
        let exact = p.cross(q).to_array();
        let products = [
            (p.y * q.z).abs() + (q.y * p.z).abs(),
            (p.z * q.x).abs() + (q.z * p.x).abs(),
            (p.x * q.y).abs() + (q.x * p.y).abs(),
        ];
        let normal = triangle_normal(triangle(&corners));
        let rounded = [normal.x, normal.y, normal.z].map(|part| f32::from_bits(part.bits));
        for i in 0..3 {
            let off = (f64::from(rounded[i]) - exact[i]).abs();
            assert!(off <= 7.0 * products[i] / 16_777_216.0 + 1.0e-30);
        }
    }
}
