[package]
name = "nifti_volume"
version = "0.1.0"
edition = "2021"
publish = false

[dependencies]
futures = "*"
js-sys = "*"
serde = { version = "*", features = ["derive"] }
serde-wasm-bindgen = "*"
wasm-bindgen = "*"
wasm-bindgen-futures = "*"
web-sys = { version = "*", features = ["Request", "RequestInit", "RequestMode", "Response", "Window", "ReadableStream", "ReadableStreamDefaultReader"] }
wgpu = "*"
