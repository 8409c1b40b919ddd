[package]
name = "configdiff"
version = "0.1.0"
edition = "2021"
publish = false

[dependencies]
anstyle = "=1.0.14"
anyhow = "=1.0.104"
clap = { version = "=4.6.7", features = ["derive"] }
globset = "=0.4.21"
indexmap = "=2.14.2"
rust-ini = "=0.21.3"
serde = { version = "=1.0.229", features = ["derive"] }
serde_json = { version = "=1.0.154", features = ["float_roundtrip", "preserve_order"] }
serde_norway = "=0.9.42"
thiserror = "=2.0.21"
toml = { version = "=1.1.8", features = ["preserve_order"] }
