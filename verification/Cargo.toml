[package]
name = "letur_project"
version = "0.1.0"
edition = "2021"
publish = false

[dependencies]
http = "1"
serde = { version = "1", features = ["derive"] }
serde_json = "1"
ureq = "3"
wasm-bindgen = "0.2"
console_error_panic_hook = "0.1"
