[package]
name = "porchetta"
version = "0.1.0"
edition = "2021"
rust-version = "1.95"
publish = false

[dependencies]
anyhow = "=1.0.104"
camino = "=1.2.6"
clap = { version = "=4.6.7", features = ["derive"] }
dirs = "=7.0.0"
flexi_logger = "=0.31.10"
gix = { version = "=0.85.0", default-features = false, features = ["blob-diff", "merge", "revision", "tree-editor", "sha1"] }
hostname = "=0.4.2"
inquire = "=0.9.4"
kstring = "=2.0.2"
log = "=0.4.35"
mlua = { version = "=0.12.2", features = ["lua54", "vendored", "serialize"] }
owo-colors = "=4.4.0"
serde_json = "=1.0.154"
smallvec = "=1.16.4"
tempfile = "=3.27.0"
walkdir = "=2.5.0"
