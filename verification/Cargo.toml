[package]
name = "tilemap_chunks"
version = "0.1.0"
edition = "2021"
publish = false

[dependencies]
glob = "*"
ron = "*"
serde = { version = "*", features = ["derive"] }
thiserror = "*"
