[package]
name = "deduper"
version = "0.1.0"
edition = "2021"
publish = false

[dependencies]
fjall = "*"
image = "*"
kamadak-exif = "*"
xxhash-rust = { version = "*", features = ["xxh3"] }
rayon = "*"
clap = { version = "*", features = ["derive"] }
colored = "*"
dialoguer = "*"
dotenv = "*"
walkdir = "*"
serde = { version = "*", features = ["derive"] }
serde_json = "*"
log = "*"
fern = "*"
humantime = "*"
indicatif = "*"
