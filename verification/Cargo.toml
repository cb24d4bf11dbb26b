[package]
name = "depthsprite"
version = "0.1.0"
edition = "2021"
publish = false

[dependencies]
num-rational = { version = "=0.4.2", default-features = false, features = ["std"] }
thiserror = "=2.0.21"
gltf = "=1.4.1"
png = "=0.18.1"

[dev-dependencies]
num-integer = "=0.1.47"
