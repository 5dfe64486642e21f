[package]
name = "my_bittorrent"
version = "0.1.0"
edition = "2021"
publish = false

[dependencies]
anyhow = "1"
clap = { version = "4", features = ["derive"] }
hex = "0.4"
rand = "*"
reqwest = { version = "*", default-features = false, features = ["blocking"] }
sha1 = "0.10"
tokio = { version = "1", features = ["full"] }
