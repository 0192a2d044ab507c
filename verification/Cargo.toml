[package]
name = "postprocessor"
version = "0.1.0"
edition = "2021"
publish = false

[dependencies]
trackforge = "*"
norfair-rs = "*"
nalgebra = "*"
wide = "*"
serde = { version = "1", features = ["derive"] }
serde_json = "1"
napi = "3"
napi-derive = "3"
