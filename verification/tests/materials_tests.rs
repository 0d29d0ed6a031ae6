use pathtracer::gltf::Error;
use pathtracer::materials::SpecularMaterial;

#[test]
fn specular_material_is_a_delta_distribution() {
    let m = SpecularMaterial::create();
    assert!(m.is_delta());
}

#[test]
fn gltf_error_is_printable() {
    assert_eq!(format!("{:?}", Error::UnknownError), "UnknownError");
}
