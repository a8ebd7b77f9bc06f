[package]
name = "netmap"
version = "0.1.0"
edition = "2021"
publish = false

[dependencies]
eui48 = { version = "*", default-features = false, features = ["serde"] }
dot-writer = "*"
serde = { version = "*", features = ["derive"] }
serde_json = "*"
clap = { version = "*", features = ["derive"] }
flexi_logger = "*"
thiserror = "*"
log = "*"
