[package]
name = "netwayste"
version = "0.1.0"
edition = "2021"
publish = false

[dependencies]
rand = "=0.8.8"
lz4_flex = "=0.11.6"
snowflake = "=1.3.0"
indexmap = "=1.9.3"
bincode = "=1.3.3"
serde = { version = "=1.0.229", features = ["derive"] }
tokio = { version = "=1.54.1", features = ["rt-multi-thread", "macros", "net", "sync", "time", "signal", "io-util"] }
anyhow = "=1.0.104"
log = "=0.4.35"
base64 = "=0.13.1"
semver = "=0.11.0"
futures = "=0.3.34"
tokio-util = { version = "=0.7.20", features = ["codec", "net"] }
bytes = "=1.12.1"
clap = { version = "=4.6.7", features = ["derive"] }
toml = "=0.5.11"
regex = "1"
reqwest = { version = "0.11", default-features = false, features = ["json", "rustls-tls"] }
