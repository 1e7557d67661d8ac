[package]
name = "bencode_torrent"
version = "0.1.0"
edition = "2021"
publish = false

[dependencies]
regex = "1"
urlencoding = "2"
bytes = "1"
thiserror = "2"
reqwest = { version = "0.12", default-features = false }
tokio = { version = "1", features = ["net", "time", "io-util", "macros", "rt-multi-thread"] }
