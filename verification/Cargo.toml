[package]
name = "stacks"
version = "0.1.0"
edition = "2021"
publish = false

[dependencies]
pulldown-cmark = { version = "0.12", default-features = false }
sha2 = "0.10"
clap = { version = "4", features = ["derive"] }
ignore = "0.4"
model2vec-rs = "0.1"
rusqlite = { version = "0.32", features = ["bundled"] }
sqlite-vec = "0.1"
serde_json = "1"
thiserror = "2"
