[package]
name = "pi-sandbox-broker"
version = "0.1.0"
edition = "2021"
publish = false

[dependencies]
base64 = "0.22"
libc = "0.2"
nix = { version = "0.30", features = ["fs", "poll", "process", "signal"] }
regex-lite = "0.1"
serde = { version = "1", features = ["derive"] }
serde_json = "1"
