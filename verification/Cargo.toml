[package]
name = "use_order"
version = "0.1.0"
edition = "2021"
publish = false

[dependencies]
clippy_utils = "=0.1.101"

[dev-dependencies]
rustc_span = "=0.1.2"
