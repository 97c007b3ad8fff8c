[package]
name = "metal_fusion"
version = "0.1.0"
edition = "2021"
publish = false

[dependencies]
petgraph = "0.6.4"
half = "2.3.1"
metal = { version = "0.27.0", features = ["mps"] }
