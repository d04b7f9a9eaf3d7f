[package]
name = "graph_kernels"
version = "0.1.0"
edition = "2021"
publish = false

[dependencies]
rustc-hash = "2"
smallvec = "1"
serde = { version = "1", features = ["derive"] }
