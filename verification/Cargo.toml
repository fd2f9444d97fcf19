[package]
name = "shred_stats"
version = "0.1.0"
edition = "2021"
publish = false

[dependencies]
bitflags = "2"
lru = "0.7"
solana-clock = "*"
