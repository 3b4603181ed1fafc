[package]
name = "quad_forest"
version = "0.1.0"
edition = "2021"
publish = false

[dependencies]
once_cell = "1"
wasm-bindgen = "0.2"
wee_alloc = "0.4"
