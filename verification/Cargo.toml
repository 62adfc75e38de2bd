[package]
name = "amcx"
version = "0.1.0"
edition = "2021"
publish = false

[dependencies]
ahrs = "=0.8.0"
byteorder = "=1.5.0"
gltf = "=1.4.1"
nalgebra = "=0.34.2"
