[package]
name = "cargo_hawk"
version = "0.1.0"
edition = "2021"
publish = false

[dependencies]
cargo-platform = "*"
anstream = "*"
anstyle = "*"
anyhow = "1"
cargo_metadata = "*"
clap = { version = "4", features = ["derive"] }
serde = { version = "1", features = ["derive"] }
serde_json = "1"
tempfile = "3"
toml = "*"
