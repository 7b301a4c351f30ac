[package]
name = "uchikomi"
version = "0.4.0"
edition = "2021"
publish = false

[dependencies]
anyhow = "1"
bincode = "1"
chrono = "0.4"
clap = { version = "4", features = ["derive"] }
crossbeam-channel = "0.5"
ctrlc = "3"
env_logger = "0.11"
git2 = { version = "0.19", default-features = false }
ignore = "0.4"
log = "0.4"
memmap2 = "0.9"
rayon = "1"
regex = "1"
serde = { version = "1", features = ["derive"] }
serde_json = "1"
toml = "0.8"
tree-sitter = "0.20"
tree-sitter-c = "0.20"
tree-sitter-rust = "0.20"
tree-sitter-typescript = "0.20"
xxhash-rust = { version = "0.8", features = ["xxh3"] }
