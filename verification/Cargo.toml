[package]
name = "muse"
version = "0.1.0"
edition = "2021"
publish = false

[dependencies]
anyhow = "=1.0.104"
arboard = { version = "3", default-features = false }
crossterm = "=0.28.1"
ratatui = "=0.29.0"
serde = { version = "=1.0.229", features = ["derive"] }
serde_json = "=1.0.154"
toml = "=0.8.23"
directories = "=5.0.1"
ignore = "=0.4.34"
lofty = "=0.25.5"
zip = { version = "=9.2.2", default-features = false, features = ["deflate"] }
tar = "=0.4.46"
flate2 = "=1.1.10"
bzip2 = "=0.6.1"
sevenz-rust = "=0.6.1"
crossbeam-channel = "=0.5.17"
