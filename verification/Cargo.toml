[package]
name = "pathtracer"
version = "0.1.0"
edition = "2021"
publish = false

[dependencies]
nalgebra-glm = "=0.21.0"
rand = "=0.9.5"
obj-rs = "*"
indicatif = "=0.18.6"
log = "=0.4.35"
gltf = { version = "=1.4.1", features = ["KHR_materials_specular"] }
