[package]
name = "rj"
version = "0.1.0"
edition = "2021"
publish = false

[dependencies]
indexmap = "2"
wasm-bindgen = "0.2"
