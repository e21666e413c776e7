[package]
name = "asar_save"
version = "0.1.0"
edition = "2021"
publish = false

[dependencies]
zip = { version = "0.6", default-features = false, features = ["deflate"] }
flate2 = "1"
brotli = "3"
serde = { version = "1", features = ["derive"] }
serde_json = "1"
thiserror = "1"
memmap = "0.7"
napi = "2"
wasm-bindgen = "0.2"
js-sys = "0.3"
