[package]
name = "mtree"
version = "0.1.0"
edition = "2021"
publish = false

[dependencies]
solana-program = "=2.3.0"
borsh = "1"
hex = "0.4"
anyhow = "1"
dotenv = "0.15"
