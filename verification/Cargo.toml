[package]
name = "cursor-core"
version = "0.1.0"
edition = "2021"
publish = false

[dependencies]
futures = "0.3"
js-sys = "0.3"
serde_json = "1"
wasm-bindgen = "0.2"
