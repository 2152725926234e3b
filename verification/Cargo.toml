[package]
name = "marked_rs"
version = "0.1.0"
edition = "2021"
publish = false

[dependencies]
napi = "2"
napi-derive = "2"
wasm-bindgen = "0.2"
