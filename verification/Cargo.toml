[package]
name = "mission_core"
version = "0.1.0"
edition = "2021"
publish = false

[dependencies]
wasmtime = { version = "=47.0.4", default-features = false, features = ["runtime", "cranelift", "std"] }
