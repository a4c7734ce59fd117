[package]
name = "libzeropool-rs"
version = "0.1.0"
edition = "2021"
publish = false

[dependencies]
libzeropool = "*"
kvdb = "*"
kvdb-memorydb = "*"
kvdb-web = "*"
serde = { version = "1", features = ["derive"] }
serde-wasm-bindgen = "*"
wasm-bindgen = "0.2"
wasm-bindgen-futures = "0.4"
js-sys = "0.3"
hex = { version = "0.4", features = ["serde"] }
