[package]
name = "hub_store"
version = "0.1.0"
edition = "2021"
publish = false

[dependencies]
rocksdb = "*"
neon = "*"
prost = "*"
threadpool = "*"
