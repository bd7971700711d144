use vortex_mesh::binary32::Binary32;
use vortex_mesh::conversion::{mesh_to_boxes, mesh_to_boxes_within, Conversion, Step};
use vortex_mesh::error::MeshToBoxesError;
use vortex_mesh::triangle::{point_triangle_distance_squared, Triangle, VANISHED};
use vortex_mesh::vector::Vec3;

fn number(value: f32) -> Binary32 {
    Binary32::of(value.to_bits())
}

fn vec3(x: f32, y: f32, z: f32) -> Vec3 {
    Vec3::new(number(x), number(y), number(z))
}

fn value(number: Binary32) -> f32 {
    f32::from_bits(number.bits)
}

fn cube() -> (Vec<Vec3>, Vec<u32>) {
    let vertices = vec![
        vec3(-1.0, -1.0, -1.0),
        vec3(1.0, -1.0, -1.0),
        vec3(1.0, 1.0, -1.0),
        vec3(-1.0, 1.0, -1.0),
        vec3(-1.0, -1.0, 1.0),
        vec3(1.0, -1.0, 1.0),
        vec3(1.0, 1.0, 1.0),
        vec3(-1.0, 1.0, 1.0),
    ];
    let indices = vec![
        0, 1, 2, 0, 2, 3, 4, 6, 5, 4, 7, 6, 0, 4, 5, 0, 5, 1, 1, 5, 6, 1, 6, 2, 2, 6, 7, 2, 7, 3,
        3, 7, 4, 3, 4, 0,
    ];
    (vertices, indices)
}

#[test]
fn rejects_invalid_mesh_input() {
    let vertices = [vec3(0.0, 0.0, 0.0)];

    assert!(matches!(
        mesh_to_boxes(&vertices, &[0, 1, 2], number(0.01)),
        Err(MeshToBoxesError::IndexOutOfBounds { .. })
    ));
    assert!(matches!(
        mesh_to_boxes(&vertices, &[0, 0], number(0.01)),
        Err(MeshToBoxesError::InvalidIndexCount)
    ));
}

#[test]
fn keeps_a_planar_rectangle_as_one_part() {
    let vertices = [
        vec3(0.0, 0.0, 0.0),
        vec3(1.0, 0.0, 0.0),
        vec3(0.0, 1.0, 0.0),
        vec3(2.0, 0.0, 0.0),
        vec3(3.0, 0.0, 0.0),
        vec3(2.0, 1.0, 0.0),
        vec3(4.0, 0.0, 0.0),
        vec3(5.0, 0.0, 0.0),
        vec3(4.0, 1.0, 0.0),
        vec3(6.0, 0.0, 0.0),
        vec3(7.0, 0.0, 0.0),
        vec3(6.0, 1.0, 0.0),
    ];
    let indices: Vec<u32> = (0..12).collect();

    let boxes = mesh_to_boxes(&vertices, &indices, number(0.5)).unwrap();

    assert_eq!(boxes.len(), 1);
}

#[test]
fn subdivides_a_poorly_fitting_triangle() {
    let vertices = [
        vec3(0.0, 0.0, 0.0),
        vec3(1.0, 0.0, 0.0),
        vec3(0.0, 1.0, 0.0),
    ];
    let indices: Vec<u32> = (0..3).collect();
    let boxes = mesh_to_boxes(&vertices, &indices, number(0.01)).unwrap();

    assert!(boxes.len() > 1);
}

#[test]
fn keeps_an_exact_cube_as_one_part() {
    let (vertices, indices) = cube();

    let boxes = mesh_to_boxes(&vertices, &indices, number(0.01)).unwrap();

    assert_eq!(boxes.len(), 1);
}

#[test]
fn the_box_of_a_cube_is_the_cube() {
    let (vertices, indices) = cube();
    let boxes = mesh_to_boxes(&vertices, &indices, number(0.01)).unwrap();
    let obb = boxes[0];
    for extent in [obb.scale.x, obb.scale.y, obb.scale.z] {
        assert!((value(extent) - 2.0).abs() < 1.0e-5);
    }
    for centre in [obb.position.x, obb.position.y, obb.position.z] {
        assert!(value(centre).abs() < 1.0e-5);
    }
}

#[test]
fn faults_are_reported_in_order() {
    let vertices = [vec3(0.0, 0.0, 0.0), vec3(1.0, 0.0, 0.0)];
    let two = Err(MeshToBoxesError::InvalidIndexCount);
    assert_eq!(mesh_to_boxes(&vertices, &[0, 9], number(-1.0)), two);
    for tolerance in [0.0, -0.0, -1.0, f32::NAN, f32::INFINITY, f32::NEG_INFINITY] {
        assert_eq!(
            mesh_to_boxes(&vertices, &[0, 9, 0], number(tolerance)),
            Err(MeshToBoxesError::NonPositiveTolerance)
        );
    }
    assert_eq!(
        mesh_to_boxes(&vertices, &[0, 1, 0, 1, 7, 9], number(0.1)),
        Err(MeshToBoxesError::IndexOutOfBounds {
            index: 7,
            vertex_count: 2
        })
    );
    assert_eq!(
        mesh_to_boxes(&vertices, &[u32::MAX, 1, 0], number(0.1)),
        Err(MeshToBoxesError::IndexOutOfBounds {
            index: u32::MAX,
            vertex_count: 2
        })
    );
    assert_eq!(
        mesh_to_boxes(&vertices, &[0, 1, 2], number(0.1)),
        Err(MeshToBoxesError::IndexOutOfBounds {
            index: 2,
            vertex_count: 2
        })
    );
}

#[test]
fn errors_explain_themselves() {
    assert_eq!(
        MeshToBoxesError::InvalidIndexCount.message(),
        "mesh indices must be a multiple of three"
    );
    assert_eq!(
        MeshToBoxesError::NonPositiveTolerance.message(),
        "surface-error tolerance must be positive"
    );
    let outside = MeshToBoxesError::IndexOutOfBounds {
        index: 4_294_967_295,
        vertex_count: 1_234_567_890,
    };
    assert_eq!(
        outside.message(),
        "mesh index 4294967295 is outside the 1234567890 available vertices"
    );
    let first = MeshToBoxesError::IndexOutOfBounds {
        index: 0,
        vertex_count: 0,
    };
    assert_eq!(
        first.message(),
        "mesh index 0 is outside the 0 available vertices"
    );
}

#[test]
fn an_empty_mesh_gives_no_boxes() {
    assert_eq!(mesh_to_boxes(&[], &[], number(0.01)), Ok(vec![]));
}

/// A bowl of triangles that no single box follows.
fn bowl(rings: u32) -> (Vec<Vec3>, Vec<u32>) {
    let mut vertices = Vec::new();
    let mut indices = Vec::new();
    for i in 0..=rings {
        for j in 0..=rings {
            let x = i as f32 / rings as f32 * 2.0 - 1.0;
            let y = j as f32 / rings as f32 * 2.0 - 1.0;
            vertices.push(vec3(x, y, x * x + y * y));
        }
    }
    for i in 0..rings {
        for j in 0..rings {
            let at = i * (rings + 1) + j;
            indices.extend([at, at + 1, at + rings + 1]);
            indices.extend([at + 1, at + rings + 2, at + rings + 1]);
        }
    }
    (vertices, indices)
}

#[test]
fn every_finished_box_is_within_tolerance() {
    let (vertices, indices) = bowl(8);
    let tolerance = number(0.05);
    let mut conversion = Conversion::new(&vertices, &indices, tolerance).unwrap();
    let mut splits = 0;
    let mut finished = 0;
    let mut share = 0.0_f64;
    let mut worst = 0.0_f32;
    loop {
        match conversion.step() {
            Step::Done => break,
            Step::Split => splits += 1,
            Step::Finished => {
                finished += 1;
                let cluster = conversion.last_finished().unwrap();
                worst = worst.max(value(cluster.surface_error));
                for triangle in &cluster.triangles {
                    assert!(triangle.halvings < VANISHED);
                    share += 0.5_f64.powi(triangle.halvings as i32);
                }
            }
        }
    }
    assert!(conversion.is_done());
    assert_eq!(finished, splits + 1);
    assert!(finished > 4);
    // What is finished adds up to the triangles that went in.
    assert!((share - (indices.len() / 3) as f64).abs() < 1.0e-9);
    let around = mesh_to_boxes(&vertices, &indices, number(10.0)).unwrap();
    assert_eq!(around.len(), 1);
    assert!(worst <= value(around[0].scale.length().times(tolerance)));
    assert_eq!(conversion.boxes().len(), finished);
    assert_eq!(
        mesh_to_boxes(&vertices, &indices, tolerance).unwrap(),
        conversion.boxes()
    );
}

#[test]
fn a_bound_on_the_steps_is_kept() {
    let (vertices, indices) = bowl(4);
    let tolerance = number(0.05);
    let all = mesh_to_boxes(&vertices, &indices, tolerance).unwrap();
    let steps = 2 * all.len() as u64 - 1;
    assert_eq!(
        mesh_to_boxes_within(&vertices, &indices, tolerance, steps),
        Ok(Some(all))
    );
    assert_eq!(
        mesh_to_boxes_within(&vertices, &indices, tolerance, steps - 1),
        Ok(None)
    );
    assert_eq!(
        mesh_to_boxes_within(&vertices, &[0], tolerance, 5),
        Err(MeshToBoxesError::InvalidIndexCount)
    );
    // Infinite coordinates never fit a box.
    let endless = [
        vec3(f32::INFINITY, 0.0, 0.0),
        vec3(1.0, 0.0, 0.0),
        vec3(0.0, 1.0, 0.0),
    ];
    assert_eq!(
        mesh_to_boxes_within(&endless, &[0, 1, 2], tolerance, 200),
        Ok(None)
    );
}

#[test]
fn lower_tolerances_give_no_fewer_boxes() {
    let (vertices, indices) = bowl(6);
    let mut before = 0;
    for tolerance in [10.0, 0.5, 0.2, 0.1, 0.07, 0.05, 0.04, 0.03] {
        let boxes = mesh_to_boxes(&vertices, &indices, number(tolerance)).unwrap();
        assert!(boxes.len() >= before);
        before = boxes.len();
    }
    assert!(before > 8);
}

#[test]
fn where_vertices_are_kept_does_not_matter() {
    let (vertices, indices) = bowl(5);
    let tolerance = number(0.05);
    let boxes = mesh_to_boxes(&vertices, &indices, tolerance).unwrap();
    assert_eq!(mesh_to_boxes(&vertices, &indices, tolerance).unwrap(), boxes);
    // The same vertices backwards, after one that no triangle has.
    let count = vertices.len() as u32;
    let mut others = vec![vec3(f32::NAN, 100.0, 0.0)];
    others.extend(vertices.iter().rev());
    let renumbered: Vec<u32> = indices.iter().map(|index| count - index).collect();
    assert_eq!(mesh_to_boxes(&others, &renumbered, tolerance).unwrap(), boxes);
}

#[test]
fn a_mesh_that_refines_is_converted_in_time() {
    let vertices = [
        vec3(0.0, 0.0, 0.0),
        vec3(1.0, 0.0, 0.0),
        vec3(0.0, 1.0, 0.0),
    ];
    let tolerance = number(0.1);
    let mut conversion = Conversion::new(&vertices, &[0, 1, 2], tolerance).unwrap();
    let mut steps = 0_u64;
    let mut generations = 0;
    while conversion.step() != Step::Done {
        steps += 1;
        if let Some(cluster) = conversion.last_finished() {
            generations = generations.max(cluster.triangles[0].halvings);
        }
    }
    assert!(generations > 0);
    assert!(steps < 1 << (generations + 1));
}

#[test]
fn boxes_cover_the_mesh() {
    let (vertices, indices) = bowl(4);
    let mesh: Vec<Triangle> = indices
        .chunks(3)
        .map(|corners| Triangle {
            a: vertices[corners[0] as usize],
            b: vertices[corners[1] as usize],
            c: vertices[corners[2] as usize],
            halvings: 0,
        })
        .collect();
    let mut conversion = Conversion::new(&vertices, &indices, number(0.02)).unwrap();
    let mut cut = 0;
    loop {
        match conversion.step() {
            Step::Done => break,
            Step::Split => continue,
            Step::Finished => {}
        }
        let cluster = conversion.last_finished().unwrap();
        let basis = cluster.obb.rotation.basis();
        for triangle in &cluster.triangles {
            cut += triangle.halvings;
            for corner in [triangle.a, triangle.b, triangle.c] {
                // Every corner lies on a triangle of the mesh.
                let least = mesh
                    .iter()
                    .map(|whole| value(point_triangle_distance_squared(corner, *whole)))
                    .fold(f32::INFINITY, f32::min);
                assert!(least < 1.0e-9);
                // And its box holds it.
                let local = basis.transpose().apply(corner.minus(cluster.obb.position));
                for (at, extent) in [
                    (local.x, cluster.obb.scale.x),
                    (local.y, cluster.obb.scale.y),
                    (local.z, cluster.obb.scale.z),
                ] {
                    assert!(value(at).abs() <= value(extent) * 0.5 + 1.0e-4);
                }
            }
        }
    }
    assert!(cut > 0);
}
