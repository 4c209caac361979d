[package]
name = "bullpen"
version = "0.1.0"
edition = "2021"
publish = false

[dependencies]
fastrand = "2"
wasm-bindgen = "0.2"
