[package]
name = "watermark_core"
version = "0.1.0"
edition = "2021"
publish = false

[dependencies]
crc32fast = "1"
sha2 = "0.10"
hex = "0.4"
uuid = { version = "1", features = ["v4", "serde"] }
rand = "0.8"
rand_chacha = "0.3"
image = { version = "0.25", default-features = false, features = ["png", "jpeg", "webp", "tiff"] }
nalgebra = "0.33"
anyhow = "1"
chrono = { version = "0.4", features = ["serde"] }
clap = { version = "4", features = ["derive"] }
csv = "1"
printpdf = "0.7"
rayon = "1"
rusqlite = { version = "0.31", features = ["bundled"] }
serde = { version = "1", features = ["derive"] }
serde_json = "1"
thiserror = "1"
walkdir = "2"
