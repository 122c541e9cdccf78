[package]
name = "raytracelib"
version = "0.1.0"
edition = "2021"
publish = false

[dependencies]
array2d = "=0.3.2"
nalgebra-glm = "=0.21.0"

[dev-dependencies]
float-cmp = "=0.10.0"
