[package]
name = "halfedge"
version = "0.1.0"
edition = "2021"
publish = false

[dependencies]
three-d = { version = "0.16", features = ["window"] }
winit = "0.28"
