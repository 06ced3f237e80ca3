[package]
name = "pulsar_scenedb"
version = "0.1.0"
edition = "2021"
publish = false

[dependencies]
ahash = "0.8.12"
tracing = "0.1.44"
wgpu = { version = "30.0.1", features = ["noop"] }
