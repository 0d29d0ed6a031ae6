use pathtracer::primitives::{min_intersection, nearest_hit, transform_mesh, transform_triangle};
use pathtracer::triangle::{NormalType, Triangle};
use pathtracer::triangle_mesh::TriangleMesh;

#[test]
fn min_intersection_takes_candidate_when_nothing_found_yet() {
    assert_eq!(min_intersection(None, Some(3u32)), (Some(3), true));
    assert_eq!(min_intersection::<u32>(None, None), (None, true));
}

#[test]
fn min_intersection_keeps_current_when_candidate_misses() {
    assert_eq!(min_intersection(Some(3u32), None), (Some(3), false));
}

#[test]
fn min_intersection_takes_strictly_nearer_candidate() {
    assert_eq!(min_intersection(Some(3u32), Some(2)), (Some(2), true));
    assert_eq!(min_intersection(Some(3u32), Some(3)), (Some(3), false));
    assert_eq!(min_intersection(Some(3u32), Some(7)), (Some(3), false));
}

#[test]
fn min_intersection_on_distances() {
    assert_eq!(min_intersection(Some(2.5f64), Some(1.25)), (Some(1.25), true));
    // A NaN distance never compares less, so it never replaces a hit.
    let (kept, replaced) = min_intersection(Some(2.5f64), Some(f64::NAN));
    assert_eq!(kept, Some(2.5));
    assert!(!replaced);
}

#[test]
fn nearest_hit_finds_first_minimum_and_its_primitive() {
    let level = vec![10usize, 11, 12, 13];
    let hits = vec![Some(5u32), None, Some(2), Some(2)];
    assert_eq!(nearest_hit(&level, &hits), (Some(2), Some(12)));
}

#[test]
fn nearest_hit_of_empty_level_is_nothing() {
    let level: Vec<usize> = vec![];
    let hits: Vec<Option<u32>> = vec![];
    assert_eq!(nearest_hit(&level, &hits), (None, None));
}

#[test]
fn nearest_hit_when_everything_misses_remembers_last_primitive() {
    // Each miss takes the place of an empty running minimum, so the last
    // primitive tried is remembered even though nothing was hit.
    let level = vec![4usize, 7];
    let hits: Vec<Option<u32>> = vec![None, None];
    assert_eq!(nearest_hit(&level, &hits), (None, Some(7)));
}

#[test]
fn nearest_hit_is_minimal_over_the_level() {
    let level: Vec<usize> = (0..8).collect();
    let hits = vec![Some(9u64), Some(4), None, Some(6), Some(1), Some(8), None, Some(3)];
    let (best, idx) = nearest_hit(&level, &hits);
    assert_eq!(best, Some(1));
    assert_eq!(idx, Some(4));
    for h in hits.iter().flatten() {
        assert!(*h >= best.unwrap());
    }
}

fn shift(p: &[i64; 3]) -> [i64; 3] {
    [p[0] + 1, p[1] + 2, p[2] + 3]
}

fn flip(v: &[i64; 3]) -> [i64; 3] {
    [-v[0], -v[1], -v[2]]
}

#[test]
fn transform_triangle_moves_corners_and_face_normal() {
    let t = Triangle::create([[0, 0, 0], [1, 0, 0], [0, 1, 0]], NormalType::FaceNormal([0, 0, 1]));
    let r = transform_triangle(&shift, &flip, &t);
    assert_eq!(r.points, [[1, 2, 3], [2, 2, 3], [1, 3, 3]]);
    match r.normal_direction {
        NormalType::FaceNormal(n) => assert_eq!(n, [0, 0, -1]),
        _ => panic!("face normal expected"),
    }
}

#[test]
fn transform_triangle_keeps_vertex_normals() {
    let normals = [[0, 0, 1], [0, 1, 0], [1, 0, 0]];
    let t = Triangle::create([[0, 0, 0], [1, 0, 0], [0, 1, 0]], NormalType::VertexNormals(normals));
    let r = transform_triangle(&shift, &flip, &t);
    match r.normal_direction {
        NormalType::VertexNormals(n) => assert_eq!(n, normals),
        _ => panic!("vertex normals expected"),
    }
}

#[test]
fn transform_mesh_keeps_order_and_length() {
    let m = TriangleMesh::create(
        vec![[[0, 0, 0], [1, 0, 0], [0, 1, 0]], [[5, 5, 5], [6, 5, 5], [5, 6, 5]]],
        vec![[0, 0, 1], [1, 0, 0]],
    );
    let r = transform_mesh(&shift, &flip, &m);
    assert_eq!(r.mesh.len(), 2);
    assert_eq!(r.mesh[0].points[0], [1, 2, 3]);
    assert_eq!(r.mesh[1].points[2], [6, 8, 8]);
    match r.mesh[1].normal_direction {
        NormalType::FaceNormal(n) => assert_eq!(n, [-1, 0, 0]),
        _ => panic!("face normal expected"),
    }
}

#[test]
fn transform_mesh_with_float_matrix() {
    let scale2 = |p: &[f64; 3]| [p[0] * 2.0, p[1] * 2.0, p[2] * 2.0];
    let same = |v: &[f64; 3]| *v;
    let m = TriangleMesh::create(vec![[[1.0, 0.0, 0.0], [0.0, 1.0, 0.0], [0.0, 0.0, 1.0]]], vec![[1.0, 1.0, 1.0]]);
    let r = transform_mesh(&scale2, &same, &m);
    assert_eq!(r.mesh[0].points, [[2.0, 0.0, 0.0], [0.0, 2.0, 0.0], [0.0, 0.0, 2.0]]);
}

#[test]
fn sweeping_two_lists_in_turn_keeps_the_nearer_of_their_nearest() {
    let a_level = vec![0usize, 1, 2];
    let a_hits = vec![Some(7u32), None, Some(4)];
    let b_level = vec![3usize, 4];
    let b_hits = vec![Some(5u32), Some(2)];
    let mut level = a_level.clone();
    level.extend(b_level.iter());
    let mut hits = a_hits.clone();
    hits.extend(b_hits.iter());
    let whole = nearest_hit(&level, &hits).0;
    let (a, _) = nearest_hit(&a_level, &a_hits);
    let (b, _) = nearest_hit(&b_level, &b_hits);
    assert_eq!(whole, min_intersection(a, b).0);
    assert_eq!(whole, Some(2));
}
