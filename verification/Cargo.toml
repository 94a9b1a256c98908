[package]
name = "mdstack"
version = "0.1.0"
edition = "2021"
publish = false

[dependencies]
clap = { version = "=4.6.7", features = ["derive"] }
libc = "=0.2.191"
serde = { version = "=1.0.229", features = ["derive"] }
socket2 = "=0.5.10"
toml = "=0.8.23"
