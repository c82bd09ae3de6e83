[package]
name = "haskell_ffi"
version = "0.1.0"
edition = "2021"
publish = false

[dependencies]
borsh = "*"
bincode = "1"
serde = "1"
