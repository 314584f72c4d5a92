[package]
name = "crash_index"
version = "0.1.0"
edition = "2021"
publish = false

[dependencies]
base64 = "=0.23.1"
grep-regex = "=0.1.14"
grep-searcher = "=0.1.17"
memmap2 = "=0.9.12"
serde_json = "=1.0.154"
