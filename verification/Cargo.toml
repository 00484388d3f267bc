[package]
name = "pedietcalc"
version = "0.1.0"
edition = "2021"
publish = false

[dependencies]
base64 = "*"

[dev-dependencies]
serde_json = "*"
