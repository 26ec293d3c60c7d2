[package]
name = "ctx"
version = "0.1.0"
edition = "2021"
publish = false

[dependencies]
chrono = "*"
clap = { version = "*", features = ["derive"] }
crossterm = "*"
daemonize = "*"
env_logger = "*"
nix = { version = "*", features = ["signal", "process"] }
notify = "*"
ratatui = "*"
regex = "*"
serde = { version = "*", features = ["derive"] }
serde_json = "*"
toml = "*"
