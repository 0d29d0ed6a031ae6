pub mod bounding_volume_hierarchy;
pub mod gltf;
pub mod materials;
pub mod pathtracer;
pub mod primitives;
pub mod triangle;
pub mod triangle_mesh;
