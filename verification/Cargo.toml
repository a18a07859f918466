[package]
name = "tiles3d"
version = "0.1.0"
edition = "2021"
publish = false

[dependencies]
crossbeam-channel = "=0.5.17"
gltf = { version = "=1.4.1", features = ["KHR_materials_unlit", "extensions", "extras"] }
md-5 = "=0.10.6"
miniz_oxide = "=0.8.9"
reqwest = { version = "=0.12.28", default-features = false, features = ["blocking"] }
serde = { version = "=1.0.229", features = ["derive"] }
serde_json = "=1.0.154"
thiserror = "=2.0.21"
