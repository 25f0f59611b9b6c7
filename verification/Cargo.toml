[package]
name = "clarity_wasm"
version = "0.1.0"
edition = "2021"
publish = false

[dependencies]
rand = "=0.8.8"
fxhash = "=0.2.1"
walrus = "=0.20.3"
wasmtime = "=9.0.4"
