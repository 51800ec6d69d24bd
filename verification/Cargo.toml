[package]
name = "storage_engine"
version = "0.1.0"
edition = "2021"

[dependencies]
rocksdb = "0.25"
