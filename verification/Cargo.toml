[package]
name = "geohash"
version = "0.1.0"
edition = "2021"
publish = false

[dependencies]
fixed = "*"
parity-scale-codec = { version = "*", features = ["derive", "max-encoded-len"] }
scale-info = { version = "*", features = ["derive"] }
