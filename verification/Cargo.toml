[package]
name = "match_linestrings"
version = "0.1.0"
edition = "2021"
publish = false

[dependencies]
anyhow = "1"
clap = { version = "4", features = ["derive"] }
console_error_panic_hook = "*"
console_log = "*"
geo = "*"
geojson = "*"
log = "*"
rstar = "0.12"
serde = { version = "1", features = ["derive"] }
serde_json = "1"
serde-wasm-bindgen = "*"
wasm-bindgen = "*"
