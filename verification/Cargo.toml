[package]
name = "parx_core"
version = "0.6.0"
edition = "2021"
publish = false

[dependencies]
anyhow = "1"
bincode = "1.3"
blake3 = "1"
chrono = "0.4"
clap = { version = "4", features = ["derive"] }
crc32fast = "1"
fluent-bundle = "0.15"
fs2 = "0.4"
globset = "0.4"
memmap2 = "0.9"
pathdiff = "0.2"
rayon = "1"
reed-solomon-erasure = "6"
serde = { version = "1", features = ["derive"] }
serde_json = "1"
unic-langid = "0.9"
walkdir = "2"
zstd = "0.13"

[dev-dependencies]
fastrand = "2"
rand = "0.8"
