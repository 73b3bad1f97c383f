[package]
name = "morphe"
version = "0.1.0"
edition = "2021"
publish = false

[dependencies]
clap = { version = "=4.6.7", features = ["derive"] }
ignore = "=0.4.34"
serde = { version = "=1.0.229", features = ["derive"] }
similar = "=3.2.1"
stylua = { version = "=2.6.0", default-features = false, features = ["lua54"] }
tempfile = "=3.27.0"
toml = "=1.1.8"
