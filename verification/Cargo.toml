[package]
name = "pm"
version = "0.1.0"
edition = "2021"
publish = false

[dependencies]
clap = { version = "4", features = ["derive"] }
dialoguer = "*"
hakoniwa = "*"
miette = { version = "7", features = ["fancy"] }
minreq = { version = "2", features = ["https-rustls"] }
nix = { version = "*", features = ["process", "ptrace", "signal"] }
ring = "0.17"
serde = { version = "1", features = ["derive"] }
serde_yaml = "0.9"
tempfile = "3"
tracing = "0.1"
tracing-subscriber = { version = "0.3", features = ["env-filter"] }
url = "2"
walkdir = "2"
zbus = "5"
