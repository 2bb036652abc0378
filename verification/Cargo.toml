[package]
name = "dar-forensic"
version = "0.1.0"
edition = "2021"
publish = false

[dependencies]
flate2 = "=1.1.10"
bzip2-rs = "=0.1.2"
lzma-rs = "=0.3.0"
ruzstd = "=0.9.1"
lz4_flex = "*"
thiserror = "=2.0.21"
serde = { version = "=1.0.229", features = ["derive"] }
forensicnomicon = "=1.12.1"
forensic-vfs = "=0.9.0"

[dev-dependencies]
serde_json = "=1.0.154"
