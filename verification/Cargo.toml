[package]
name = "jj-ryu"
version = "0.1.0"
edition = "2021"
publish = false

[dependencies]
anstream = "=1.0.0"
anyhow = "=1.0.104"
base64 = "=0.22.1"
chrono = { version = "=0.4.45", features = ["serde"] }
clap = { version = "=4.6.7", features = ["derive"] }
dialoguer = "=0.12.0"
dirs = "=7.0.0"
gix = { version = "=0.75.0", default-features = false }
indicatif = "=0.18.6"
jj-lib = "=0.36.0"
# gix needs kstring; later releases of it ask for a newer compiler than 1.95.
kstring = "=2.0.2"
serde = { version = "=1.0.229", features = ["derive"] }
serde_json = "=1.0.154"
thiserror = "=2.0.21"
tokio = { version = "=1.54.1", features = ["rt-multi-thread", "macros"] }
toml = "=1.1.8"
