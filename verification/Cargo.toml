[package]
name = "mcumgr-toolkit-web"
version = "0.1.0"
edition = "2021"
publish = false

[dependencies]
base64 = "0.22"
crc = "3"
sha2 = "0.10"
ciborium = "0.2"
serde = { version = "1", features = ["derive"] }
serde_bytes = "0.11"
serde_json = "1"
js-sys = "0.3"
wasm-bindgen = "0.2"
wasm-bindgen-futures = "0.4"
