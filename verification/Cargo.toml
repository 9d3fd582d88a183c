[package]
name = "universe"
version = "1.1.0"
edition = "2021"
publish = false

[dependencies]
blake3 = "=1.8.7"
sha2 = "=0.10.9"
crc32c = "=0.6.9"
zstd = "=0.13.4"
lz4_flex = "=0.11.6"
flate2 = "=1.1.10"
leb128 = "=0.2.7"
ciborium = "=0.2.2"
bytes = "=1.12.1"
hex = "=0.4.3"
chrono = "=0.4.45"
anyhow = "=1.0.104"
rayon = "=1.12.0"
serde = { version = "=1.0.229", features = ["derive"] }
serde_json = "=1.0.154"
clap = { version = "=4.6.7", features = ["derive"] }
unicode-normalization = "0.1"
