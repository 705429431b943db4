[package]
name = "am_interop"
version = "0.1.0"
edition = "2021"
publish = false

[dependencies]
automerge = "=0.3.0"
hex = "=0.4.3"
js-sys = "=0.3.107"
wasm-bindgen = "=0.2.130"
thiserror = "=1.0.69"
