[package]
name = "pitagoecsvgen_core"
version = "0.1.0"
edition = "2021"
publish = false

[dependencies]
itertools = "0.12"
lindera = { version = "*", default-features = false }
regex = "1"
unicode-normalization = "0.1"
wasm-bindgen = "0.2"
serde-wasm-bindgen = "0.6"
console_error_panic_hook = "0.1"
