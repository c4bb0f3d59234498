[package]
name = "gitrs"
version = "0.1.0"
edition = "2021"
publish = false

[dependencies]
anyhow = "1"
clap = { version = "4", features = ["derive"] }
env_logger = "*"
flate2 = "1"
glob = "0.3"
hex = "0.4"
indexmap = "2"
log = "0.4"
sha1 = "0.10"
thiserror = "*"
