[package]
name = "fuzzymatch"
version = "0.1.0"
edition = "2021"
publish = false

[dependencies]
wasm-bindgen = { version = "=0.2.129", features = ["serde-serialize"] }
serde = "=1.0.229"
serde_derive = "=1.0.229"
