[package]
name = "yaromchecker"
version = "0.1.0"
edition = "2021"
publish = false

[dependencies]
quick-xml = "0.37"
crc32fast = "1"
md-5 = "0.10"
sha1 = "0.10"
anyhow = "1"
clap = { version = "4", features = ["derive"] }
serde = { version = "1", features = ["derive"] }
serde_yml = "0.0.12"
rusqlite = { version = "0.32", features = ["bundled"] }
zip = { version = "2", default-features = false, features = ["deflate", "zstd"] }
sevenz-rust = { version = "0.6", features = ["zstd"] }
walkdir = "2"
rayon = "1"
tracing = "0.1"
tracing-subscriber = "0.3"
thiserror = "2"
