[package]
name = "ringabell"
version = "0.1.0"
edition = "2021"
publish = false

[dependencies]
rustfft = "6"
serde_json = "1"
wasm-bindgen = "0.2"
