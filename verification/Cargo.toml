[package]
name = "tiny_zk_stark"
version = "0.1.0"
edition = "2021"
publish = false

[dependencies]
anyhow = "=1.0.104"
zkhash = "=0.2.0"
