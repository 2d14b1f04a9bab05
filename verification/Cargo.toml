[package]
name = "tempo"
version = "0.1.0"
edition = "2021"
publish = false

[dependencies]
clap = { version = "4", features = ["derive"] }
console_error_panic_hook = "0.1"
csv = "1"
rustfft = "6"
serde = { version = "1", features = ["derive"] }
serde_json = "1"
serde-wasm-bindgen = "0.6"
symphonia = { version = "0.5", features = ["all"] }
wasm-bindgen = "0.2"
zip = { version = "2", default-features = false, features = ["deflate"] }
