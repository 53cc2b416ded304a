[package]
name = "tare"
version = "0.1.0"
edition = "2021"
publish = false

[dependencies]
blake3 = "=1.8.7"
regex = "1"
serde = { version = "=1.0.229", features = ["derive"] }
serde_json = "=1.0.154"
syn = { version = "=2.0.119", features = ["full", "visit"] }
proc-macro2 = { version = "=1.0.107", features = ["span-locations"] }
walkdir = "=2.5.0"
dhat = "=0.3.3"
