[package]
name = "zippo"
version = "0.1.0"
edition = "2021"
publish = false

[dependencies]
anyhow = "1"
ruint = "1.12"
