[package]
name = "btclib"
version = "0.1.0"
edition = "2021"
publish = false

[dependencies]
anyhow = "1"
chrono = { version = "0.4", features = ["serde"] }
ciborium = "0.2"
clap = { version = "4", features = ["derive"] }
crossbeam-skiplist = "*"
hex = "0.4"
kanal = "*"
serde = { version = "1", features = ["derive"] }
sha256 = "1"
thiserror = "*"
tokio = { version = "1", features = ["full"] }
toml = "*"
uuid = { version = "1", features = ["v4", "serde"] }
