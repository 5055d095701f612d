[package]
name = "recol"
version = "0.1.0"
edition = "2021"
publish = false

[dependencies]
rand = "*"
fastrand = "*"
serde = { version = "*", features = ["derive"] }
toml = "*"
strsim = "*"
