use vstd::prelude::*;
use crate::triangle::{NormalType, Triangle};

verus! {

/// A list of triangles that together form one surface.
#[derive(Clone, Debug)]
pub struct TriangleMesh<V> {
    pub mesh: Vec<Triangle<V>>,
}

/// The three entries of `items` that the `t`-th triple of `indices` names.
pub open spec fn indexed_triple<V>(items: Seq<V>, indices: Seq<usize>, t: int) -> Seq<V> {
    seq![
        items[indices[3 * t] as int],
        items[indices[3 * t + 1] as int],
        items[indices[3 * t + 2] as int],
    ]
}

/// The `j`-th of the three entries that the `t`-th triple of `indices` names
/// is the entry at index `indices[3 t + j]`: the triple keeps the order of the
/// indices.
pub proof fn lemma_indexed_triple<V>(items: Seq<V>, indices: Seq<usize>, t: int)
    ensures
        indexed_triple(items, indices, t).len() == 3,
        forall|j: int|
            0 <= j < 3 ==> #[trigger] indexed_triple(items, indices, t)[j] == items[indices[3 * t
                + j] as int],
{
    let s = indexed_triple(items, indices, t);
    assert(s[0] == items[indices[3 * t + 0] as int]);
    assert(s[1] == items[indices[3 * t + 1] as int]);
    assert(s[2] == items[indices[3 * t + 2] as int]);
}

/// Every index names an entry of a list of `len` items.
pub open spec fn indices_below(indices: Seq<usize>, len: int) -> bool {
    forall|k: int| 0 <= k < indices.len() ==> #[trigger] indices[k] < len
}

impl<V: Copy> TriangleMesh<V> {
    /// One triangle per entry of `triangle_points`, each with the face normal
    /// at the same position of `normals`.
    pub fn create(triangle_points: Vec<[V; 3]>, normals: Vec<V>) -> (r: Self)
        requires
            normals.len() >= triangle_points.len(),
        ensures
            r.mesh.len() == triangle_points.len(),
            forall|t: int|
                0 <= t < triangle_points.len() ==> (#[trigger] r.mesh@[t]).points
                    == triangle_points@[t] && r.mesh@[t].normal_direction == NormalType::FaceNormal(
                    normals@[t],
                ),
    {
        let mut mesh: Vec<Triangle<V>> = Vec::new();
        let n = triangle_points.len();
        let mut index: usize = 0;
        while index < n
            invariant
                n == triangle_points.len(),
                normals.len() >= n,
                index <= n,
                mesh.len() == index,
                forall|t: int|
                    0 <= t < index ==> (#[trigger] mesh@[t]).points == triangle_points@[t]
                        && mesh@[t].normal_direction == NormalType::FaceNormal(normals@[t]),
            decreases n - index,
        {
            mesh.push(Triangle::create(triangle_points[index], NormalType::FaceNormal(normals[index])));
            index = index + 1;
        }
        TriangleMesh { mesh }
    }

    /// A mesh made of exactly the given triangles.
    pub fn create_from(v: Vec<Triangle<V>>) -> (r: Self)
        ensures
            r.mesh == v,
    {
        TriangleMesh { mesh: v }
    }

    /// Builds one triangle from each consecutive triple of `indices`: its
    /// corners are the positions those indices name, and its normals, blended
    /// per corner, are the normals they name.
    pub fn from_positions_and_normals(positions: Vec<V>, indices: Vec<usize>, normals: Vec<V>) -> (r: Self)
        requires
            indices.len() % 3 == 0,
            indices_below(indices@, positions.len() as int),
            indices_below(indices@, normals.len() as int),
        ensures
            r.mesh.len() == indices.len() / 3,
            forall|t: int|
                0 <= t < r.mesh.len() ==> (#[trigger] r.mesh@[t]).points@ == indexed_triple(
                    positions@,
                    indices@,
                    t,
                ) && (r.mesh@[t].normal_direction matches NormalType::VertexNormals(ns) && ns@
                    == indexed_triple(normals@, indices@, t)),
            forall|t: int, j: int|
                0 <= t < r.mesh.len() && 0 <= j < 3 ==> (#[trigger] r.mesh@[t].points[j])
                    == positions@[indices@[3 * t + j] as int],
            forall|t: int, j: int|
                0 <= t < r.mesh.len() && 0 <= j < 3 ==> r.mesh@[t].normal_direction is VertexNormals
                    && (#[trigger] r.mesh@[t].normal_direction->VertexNormals_0[j]) == normals@[indices@[3
                    * t + j] as int],
    {
        let mut triangles: Vec<Triangle<V>> = Vec::new();
        let n = indices.len();
        let mut index: usize = 0;
        while index < n
            invariant
                n == indices.len(),
                n % 3 == 0,
                index % 3 == 0,
                index <= n,
                indices_below(indices@, positions.len() as int),
                indices_below(indices@, normals.len() as int),
                triangles.len() == index / 3,
                forall|t: int|
                    0 <= t < triangles.len() ==> (#[trigger] triangles@[t]).points@
                        == indexed_triple(positions@, indices@, t) && (
                    triangles@[t].normal_direction matches NormalType::VertexNormals(ns) && ns@
                        == indexed_triple(normals@, indices@, t)),
            decreases n - index,
        {
            let a = indices[index];
            let b = indices[index + 1];
            let c = indices[index + 2];
            let triangle_points = [positions[a], positions[b], positions[c]];
            let triangle_normals = [normals[a], normals[b], normals[c]];
            proof {
                assert(triangle_points@ == indexed_triple(positions@, indices@, (index / 3) as int));
                assert(triangle_normals@ == indexed_triple(normals@, indices@, (index / 3) as int));
            }
            triangles.push(Triangle::create(triangle_points, NormalType::VertexNormals(triangle_normals)));
            index = index + 3;
        }
        proof {
            assert forall|t: int, j: int| 0 <= t < triangles.len() && 0 <= j < 3 implies triangles@[t].normal_direction is VertexNormals
                && (#[trigger] triangles@[t].normal_direction->VertexNormals_0[j]) == normals@[indices@[3
                * t + j] as int] by {
                lemma_indexed_triple(normals@, indices@, t);
                let ns = triangles@[t].normal_direction->VertexNormals_0;
                assert(ns[j] == ns@[j]);
            }
        }
        proof {
            assert forall|t: int, j: int| 0 <= t < triangles.len() && 0 <= j < 3 implies #[trigger] triangles@[t].points[j]
                == positions@[indices@[3 * t + j] as int] by {
                lemma_indexed_triple(positions@, indices@, t);
                assert(triangles@[t].points[j] == triangles@[t].points@[j]);
            }
        }
        TriangleMesh { mesh: triangles }
    }

    /// Builds one triangle from each consecutive triple of `indices`, with its
    /// corners at the positions those indices name and its normal left to be
    /// inferred from the winding.
    pub fn from_positions(positions: Vec<V>, indices: Vec<usize>) -> (r: Self)
        requires
            indices.len() % 3 == 0,
            indices_below(indices@, positions.len() as int),
        ensures
            r.mesh.len() == indices.len() / 3,
            forall|t: int|
                0 <= t < r.mesh.len() ==> (#[trigger] r.mesh@[t]).points@ == indexed_triple(
                    positions@,
                    indices@,
                    t,
                ) && r.mesh@[t].normal_direction == NormalType::<V>::Inferred,
            forall|t: int, j: int|
                0 <= t < r.mesh.len() && 0 <= j < 3 ==> (#[trigger] r.mesh@[t].points[j])
                    == positions@[indices@[3 * t + j] as int],
    {
        let mut triangles: Vec<Triangle<V>> = Vec::new();
        let n = indices.len();
        let mut index: usize = 0;
        while index < n
            invariant
                n == indices.len(),
                n % 3 == 0,
                index % 3 == 0,
                index <= n,
                indices_below(indices@, positions.len() as int),
                triangles.len() == index / 3,
                forall|t: int|
                    0 <= t < triangles.len() ==> (#[trigger] triangles@[t]).points@
                        == indexed_triple(positions@, indices@, t)
                        && triangles@[t].normal_direction == NormalType::<V>::Inferred,
            decreases n - index,
        {
            let triangle_points = [
                positions[indices[index]],
                positions[indices[index + 1]],
                positions[indices[index + 2]],
            ];
            proof {
                assert(triangle_points@ == indexed_triple(positions@, indices@, (index / 3) as int));
            }
            triangles.push(Triangle::create(triangle_points, NormalType::Inferred));
            index = index + 3;
        }
        proof {
            assert forall|t: int, j: int| 0 <= t < triangles.len() && 0 <= j < 3 implies #[trigger] triangles@[t].points[j]
                == positions@[indices@[3 * t + j] as int] by {
                lemma_indexed_triple(positions@, indices@, t);
                assert(triangles@[t].points[j] == triangles@[t].points@[j]);
            }
        }
        TriangleMesh { mesh: triangles }
    }
}

} // verus!
