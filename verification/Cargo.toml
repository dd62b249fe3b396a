[package]
name = "config-cli"
version = "0.1.0"
edition = "2021"
publish = false

[dependencies]
anyhow = "=1.0.104"
clap = { version = "=4.6.7", features = ["derive"] }
env-file-reader = "=0.3.0"
glob = "=0.3.4"
log = "=0.4.34"
simple_logger = "=5.2.0"
thiserror = "=1.0.69"
toml = { version = "=0.8.23", features = ["preserve_order"] }
