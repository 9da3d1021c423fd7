[package]
name = "wasm_rr"
version = "0.1.0"
edition = "2021"
publish = false

[dependencies]
anyhow = "1"
bytes = "1"
clap = { version = "4", features = ["derive"] }
clap-markdown = "0.1"
http-body-util = "0.1"
hyper = "1"
wasmtime = "37"
wasmtime-wasi = "37"
wasmtime-wasi-http = "37"
wasmtime-wasi-io = "37"

[dev-dependencies]
ciborium = "0.2"
serde_json = { version = "1", features = ["preserve_order"] }
