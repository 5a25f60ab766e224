[package]
name = "toml_patch"
version = "0.1.0"
edition = "2021"
publish = false

[dependencies]
toml_edit = "0.22"
wasm-bindgen = "0.2"
