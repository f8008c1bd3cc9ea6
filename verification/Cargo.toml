[package]
name = "edge_detection_wasm"
version = "0.1.0"
edition = "2021"
publish = false

[dependencies]
image = { version = "0.21", default-features = false }
wasm-bindgen = "0.2"
