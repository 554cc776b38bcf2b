[package]
name = "sg_wasm"
version = "0.1.0"
edition = "2021"
publish = false

[dependencies]
serde_json = "1"
wasm-bindgen = "0.2"
