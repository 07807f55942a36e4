[package]
name = "rusty_torrent"
version = "0.1.0"
edition = "2021"
publish = false

[dependencies]
sha1 = "0.10"
rand = "0.8"
url = "2"
anyhow = "1"
clap = { version = "4", features = ["derive"] }
tokio = { version = "1", features = ["full"] }
reqwest = { version = "0.12", default-features = false }
serde = { version = "1", features = ["derive"] }
toml = "0.8"
tracing = "0.1"
tracing-subscriber = { version = "0.3", features = ["env-filter"] }
thiserror = "1"
