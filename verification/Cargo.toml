[package]
name = "edge_introspect"
version = "0.1.0"
edition = "2021"
publish = false

[dependencies]
worker = "*"
js-sys = "*"
console_error_panic_hook = "*"

[dev-dependencies]
serde_json = "*"
