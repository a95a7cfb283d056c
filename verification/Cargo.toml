[package]
name = "bittorrent"
version = "0.1.0"
edition = "2021"
publish = false

[dependencies]
sha1 = "=0.11.0"
hex = "=0.4.3"
anyhow = "*"
bytes = "*"
clap = { version = "*", features = ["derive"] }
futures-util = { version = "*", features = ["sink"] }
reqwest = { version = "*", default-features = false }
serde = { version = "*", features = ["derive"] }
serde_urlencoded = "*"
tokio = { version = "*", features = ["rt-multi-thread", "macros", "net", "io-util", "time"] }
tokio-util = { version = "*", features = ["codec"] }
