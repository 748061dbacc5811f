[package]
name = "procon"
version = "0.1.0"
edition = "2021"
publish = false

[dependencies]
serde_json = "1"
serde_yaml = "0.9"
json = "0.12"
yaml-rust = "0.4"
linked-hash-map = "0.5"
toml = "*"
anyhow = "1"
clap = { version = "4", features = ["derive"] }
clap-verbosity-flag = "*"
env_logger = "*"
log = "*"
is-terminal = "*"
exitcode = "*"
thiserror = "*"
