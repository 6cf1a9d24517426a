[package]
name = "redpiler"
version = "0.1.0"
edition = "2021"
publish = false

[dependencies]
bytemuck = "1"
futures = "0.3"
itertools = "0.14"
petgraph = "0.8"
rustc-hash = "2"
smallvec = "1"
tokio = { version = "1", features = ["rt", "rt-multi-thread", "sync"] }
tracing = "0.1"
wgpu = "25"
