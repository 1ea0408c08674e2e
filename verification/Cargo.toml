[package]
name = "mercury_mapper"
version = "0.1.0"
edition = "2021"
publish = false

[dependencies]
crc = "3"
serde = { version = "1", features = ["derive"] }
serde_json = "1"
devicemapper = "*"
nix = { version = "*", features = ["fs"] }
