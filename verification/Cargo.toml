[package]
name = "rocket_request_id"
version = "0.1.0"
edition = "2021"
publish = false

[dependencies]
rand = "0.8"
rocket = { version = "0.5", default-features = false }
lazy_static = "1"
log = "0.4"
