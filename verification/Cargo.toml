[package]
name = "bittorrent"
version = "0.1.0"
edition = "2021"
publish = false

[dependencies]
anyhow = "*"
bytes = "*"
clap = { version = "*", features = ["derive"] }
fastrand = "*"
futures-util = { version = "*", features = ["sink"] }
hex = "=0.4.3"
kanal = "*"
reqwest = { version = "*", default-features = false }
serde = { version = "*", features = ["derive"] }
serde_bencode = "*"
serde_json = "*"
serde_urlencoded = "*"
sha1 = "=0.11.0"
tokio = { version = "*", features = ["rt-multi-thread", "macros", "net", "io-util", "sync", "time"] }
tokio-util = { version = "*", features = ["codec"] }
