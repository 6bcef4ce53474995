[package]
name = "infino_core"
version = "0.1.0"
edition = "2021"
publish = false

[dependencies]
bytemuck = "1"
bytes = "1"
figment = { version = "0.10", features = ["yaml"] }
rand = "0.10"
rayon = "1"
serde = { version = "1", features = ["derive"] }
tempfile = "3"
thiserror = "2"
tracing = "0.1"

[dev-dependencies]
serde_json = "1"
