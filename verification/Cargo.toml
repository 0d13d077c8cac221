[package]
name = "nix-olde"
version = "0.1.0"
edition = "2021"
publish = false

[dependencies]
clap = { version = "4", features = ["derive"] }
clap-verbosity-flag = "*"
env_logger = "*"
gethostname = "*"
log = "0.4"
serde = "1"
serde_derive = "1"
serde_json = "1"
thiserror = "*"
