use vstd::prelude::*;

verus! {

/// How a triangle's shading normal is found.
#[derive(Debug, Copy, Clone)]
pub enum NormalType<V> {
    /// One normal for the whole face; only its side is used.
    FaceNormal(V),
    /// One normal per corner, blended across the face.
    VertexNormals([V; 3]),
    /// No normal was given; it is taken from the winding of the corners.
    Inferred,
}

/// A triangle over points of type `V`.
#[derive(Debug, Copy, Clone)]
pub struct Triangle<V> {
    pub points: [V; 3],
    pub normal_direction: NormalType<V>,
}

impl<V> Triangle<V> {
    /// A triangle with the given corners and normal information.
    pub fn create(points: [V; 3], normal_direction: NormalType<V>) -> (r: Self)
        ensures
            r.points == points,
            r.normal_direction == normal_direction,
    {
        Triangle { points, normal_direction }
    }
}

} // verus!
