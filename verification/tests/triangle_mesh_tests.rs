use pathtracer::triangle::{NormalType, Triangle};
use pathtracer::triangle_mesh::TriangleMesh;

#[test]
fn triangle_create_keeps_fields() {
    let t = Triangle::create([[-2.0, 0.0, 0.0], [0.0, 2.0, 0.0], [2.0, -2.0, 0.0]], NormalType::FaceNormal([0.0, 0.0, 1.0]));
    assert_eq!(t.points[1], [0.0, 2.0, 0.0]);
    assert!(matches!(t.normal_direction, NormalType::FaceNormal(n) if n == [0.0, 0.0, 1.0]));
}

#[test]
fn create_pairs_triangles_with_face_normals() {
    let m = TriangleMesh::create(
        vec![
            [[-1.0, -1.0, 1.0], [1.0, -1.0, -1.0], [1.0, -1.0, 1.0]],
            [[-1.0, -1.0, 1.0], [-1.0, -1.0, -1.0], [1.0, -1.0, -1.0]],
        ],
        vec![[0.0, 0.0, 1.0], [0.0, 0.0, 1.0], [0.0, 1.0, 0.0], [0.0, 1.0, 0.0]],
    );
    assert_eq!(m.mesh.len(), 2);
    assert_eq!(m.mesh[1].points[1], [-1.0, -1.0, -1.0]);
    assert!(matches!(m.mesh[1].normal_direction, NormalType::FaceNormal(n) if n == [0.0, 0.0, 1.0]));
}

#[test]
fn create_from_keeps_triangles() {
    let t = Triangle::create([1u8, 2, 3], NormalType::Inferred);
    let m = TriangleMesh::create_from(vec![t, t]);
    assert_eq!(m.mesh.len(), 2);
}

#[test]
fn from_positions_and_normals_reads_index_triples() {
    let positions = vec![[0, 0, 0], [1, 0, 0], [0, 1, 0], [1, 1, 0]];
    let normals = vec![[0, 0, 1], [0, 0, 2], [0, 0, 3], [0, 0, 4]];
    let indices = vec![0usize, 1, 2, 2, 1, 3];
    let m = TriangleMesh::from_positions_and_normals(positions, indices, normals);
    assert_eq!(m.mesh.len(), 2);
    assert_eq!(m.mesh[1].points, [[0, 1, 0], [1, 0, 0], [1, 1, 0]]);
    match m.mesh[1].normal_direction {
        NormalType::VertexNormals(ns) => assert_eq!(ns, [[0, 0, 3], [0, 0, 2], [0, 0, 4]]),
        _ => panic!("vertex normals expected"),
    }
}

#[test]
fn from_positions_infers_normals() {
    let positions = vec![[0.0f32, 0.0, 0.0], [1.0, 0.0, 0.0], [0.0, 1.0, 0.0]];
    let m = TriangleMesh::from_positions(positions, vec![2, 1, 0]);
    assert_eq!(m.mesh.len(), 1);
    assert_eq!(m.mesh[0].points[0], [0.0, 1.0, 0.0]);
    assert!(matches!(m.mesh[0].normal_direction, NormalType::Inferred));
}

#[test]
fn empty_index_list_gives_empty_mesh() {
    let m = TriangleMesh::<[f32; 3]>::from_positions(vec![], vec![]);
    assert_eq!(m.mesh.len(), 0);
}
