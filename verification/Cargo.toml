[package]
name = "gib"
version = "0.1.0"
edition = "2021"
publish = false

[dependencies]
zstd = "*"
sha2 = "*"
argon2 = "*"
chacha20poly1305 = "*"
rand_core = { version = "*", features = ["os_rng"] }
tokio = { version = "*", features = ["full"] }
walkdir = "*"
dirs = "*"
