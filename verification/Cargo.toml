[package]
name = "ogre_core"
version = "0.1.0"
edition = "2021"
publish = false

[dependencies]
ahash = "=0.8.12"
slotmap = { version = "=1.1.1", features = ["serde"] }
glam = { version = "=0.34.2", features = ["serde"] }
rayon = "=1.12.0"
serde = { version = "=1.0.229", features = ["derive"] }
thiserror = "=2.0.21"
bytemuck = { version = "=1.25.2", features = ["derive"] }
