[package]
name = "filepressor"
version = "0.1.0"
edition = "2021"
publish = false

[dependencies]
serde = { version = "=1.0.229", features = ["derive"] }
serde_json = "=1.0.154"
walkdir = "=2.5.0"
tempfile = "=3.27.0"
zip = "=2.6.1"
sevenz-rust = "=0.6.1"
tar = "=0.4.46"
flate2 = "=1.1.10"
bzip2 = "=0.4.4"
xz2 = "=0.1.7"
zstd = { version = "=0.13.4", features = ["zstdmt"] }
unrar = "=0.5.8"
