[package]
name = "bittorrent"
version = "0.1.0"
edition = "2021"
publish = false

[dependencies]
anyhow = "=1.0.104"
bytes = "=1.12.1"
futures-util = { version = "=0.3.34", features = ["sink"] }
hex = "=0.4.3"
itertools = "=0.13.0"
reqwest = { version = "=0.12.28", default-features = false }
serde_json = "=1.0.154"
sha1 = "=0.10.7"
tokio = { version = "=1.54.1", features = ["net", "io-util", "rt-multi-thread", "macros", "time"] }
tokio-util = { version = "=0.7.20", features = ["codec"] }
