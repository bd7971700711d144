use vortex_mesh::binary32::{Binary32, NAN};
use vortex_mesh::vector::{Mat3, Quat, Vec3};

fn numbers(count: usize) -> Vec<f32> {
    let mut found = vec![
        0.0, -0.0, 1.0, -1.0, 0.5, 3.0, f32::INFINITY, f32::NEG_INFINITY, f32::NAN, 1.0e-20, 1.0e20,
        f32::MIN_POSITIVE, f32::MAX,
    ];
    let mut state = 0x1234_5678_9abc_def1_u64;
    while found.len() < count {
        state = state
            .wrapping_mul(6_364_136_223_846_793_005)
            .wrapping_add(1_442_695_040_888_963_407);
        let raw = ((state >> 33) as u32 & 0xff_ffff) as f32 / 8_388_608.0 - 1.0;
        found.push(raw * [1.0, 0.01, 30.0][found.len() % 3]);
    }
    found
}

fn number(value: f32) -> Binary32 {
    Binary32::of(value.to_bits())
}

fn vector(v: glam::Vec3) -> Vec3 {
    Vec3::new(number(v.x), number(v.y), number(v.z))
}

fn same(ours: Binary32, native: f32) -> bool {
    if native.is_nan() {
        // A number that is only passed on keeps its pattern.
        ours.bits == NAN || ours.is_nan()
    } else {
        ours.bits == native.to_bits()
    }
}

fn same_vector(ours: Vec3, native: glam::Vec3) -> bool {
    same(ours.x, native.x) && same(ours.y, native.y) && same(ours.z, native.z)
}

fn same_matrix(ours: Mat3, native: glam::Mat3) -> bool {
    same_vector(ours.x_axis, native.x_axis)
        && same_vector(ours.y_axis, native.y_axis)
        && same_vector(ours.z_axis, native.z_axis)
}

/// Vectors of mixed numbers.
fn vectors(count: usize) -> Vec<glam::Vec3> {
    let all = numbers(count + 40);
    (0..count)
        .map(|i| glam::vec3(all[i], all[(i * 7 + 3) % all.len()], all[(i * 13 + 5) % all.len()]))
        .collect()
}

#[test]
fn vector_operations_are_those_of_the_machine() {
    let all = vectors(160);
    for &p in &all {
        let a = vector(p);
        assert!(same_vector(a.neg(), -p));
        assert!(same(a.length_squared(), p.length_squared()));
        assert!(same(a.length(), p.length()));
        let reciprocal = 1.0 / p.length();
        if (p * reciprocal).is_finite() {
            assert!(same_vector(a.normalize(), p.normalize()));
        }
        for &q in &all {
            let b = vector(q);
            assert!(same_vector(a.plus(b), p + q));
            assert!(same_vector(a.minus(b), p - q));
            assert!(same_vector(a.times(b), p * q));
            assert!(same_vector(a.scaled(b.x), p * q.x));
            assert!(same_vector(a.over(b.x), p / q.x));
            assert!(same(a.dot(b), p.dot(q)));
            assert!(same_vector(a.cross(b), p.cross(q)));
            assert!(same(a.distance_squared(b), p.distance_squared(q)));
            assert!(same_vector(a.least(b), p.min(q)));
            assert!(same_vector(a.greatest(b), p.max(q)));
        }
    }
}

#[test]
fn matrix_operations_are_those_of_the_machine() {
    let all = vectors(300);
    for triple in all.windows(4) {
        let native = glam::Mat3::from_cols(triple[0], triple[1], triple[2]);
        let ours = Mat3::from_cols(vector(triple[0]), vector(triple[1]), vector(triple[2]));
        let other = glam::Mat3::from_cols(triple[2], triple[3], triple[0]);
        let theirs = Mat3::from_cols(vector(triple[2]), vector(triple[3]), vector(triple[0]));
        assert!(same_matrix(ours.transpose(), native.transpose()));
        assert!(same_matrix(ours.minus(theirs), native - other));
        assert!(same_matrix(ours.scaled(number(triple[3].y)), native * triple[3].y));
        assert!(same_vector(ours.apply(vector(triple[3])), native * triple[3]));
    }
}

#[test]
fn rotations_are_those_of_the_machine() {
    let mut seen = 0;
    let all = vectors(4000);
    for pair in all[40..].windows(2) {
        let x = pair[0].normalize_or_zero();
        let across = pair[1] - x * pair[1].dot(x);
        if x.length_squared() < 0.5 || across.length_squared() < 1.0e-6 {
            continue;
        }
        let y = across.normalize();
        let z = x.cross(y).normalize();
        let basis = glam::Mat3::from_cols(x, y, z);
        let native = glam::Quat::from_mat3(&basis);
        let ours = Quat::from_basis(Mat3::from_cols(vector(x), vector(y), vector(z)));
        assert!(same(ours.x, native.x));
        assert!(same(ours.y, native.y));
        assert!(same(ours.z, native.z));
        assert!(same(ours.w, native.w));
        assert!(same_matrix(ours.basis(), glam::Mat3::from_quat(native)));
        seen += 1;
    }
    assert!(seen > 2000);
    assert_eq!(Quat::identity().w, number(1.0));
    assert!(same_matrix(Quat::identity().basis(), glam::Mat3::IDENTITY));
    assert!(same_vector(Vec3::zero(), glam::Vec3::ZERO));
    assert!(same_vector(Vec3::x_unit(), glam::Vec3::X));
    assert!(same_vector(Vec3::y_unit(), glam::Vec3::Y));
    assert!(same_vector(Vec3::z_unit(), glam::Vec3::Z));
}
