[package]
name = "firstaide"
version = "0.1.0"
edition = "2021"
publish = false

[dependencies]
anyhow = "1"
atty = "0.2"
bincode = "1"
bstr = "0.2"
chrono = "0.4"
clap = { version = "3", features = ["derive"] }
crypto-hash = "0.3"
dirs = "3"
fern = "0.6"
log = "0.4"
path-absolutize = "3"
semver = "1"
serde = { version = "1", features = ["derive"] }
spinners = "2"
tempfile = "3"
thiserror = "1"
toml = "0.5"
