[package]
name = "cross_file"
version = "0.1.0"
edition = "2021"
publish = false

[dependencies]
lru = "*"
tower-lsp = "*"
tokio = { version = "*", features = ["rt-multi-thread", "io-std", "macros"] }
anyhow = "*"
log = "*"
