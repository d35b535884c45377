[package]
name = "page_store"
version = "0.1.0"
edition = "2021"
publish = false

[dependencies]
anyhow = "*"
dashmap = "*"
parking_lot = "*"
thiserror = "*"
