[package]
name = "zhhz"
version = "0.7.8"
edition = "2021"
publish = false

[dependencies]
serde_json = "1"
anyhow = "1"
rsmarisa = "*"
wasm-bindgen = "0.2"
js-sys = "0.3"
