[package]
name = "btree"
version = "0.1.0"
edition = "2021"
publish = false

[dependencies]
lru = "0.7"
rmp-serde = "1"
serde = { version = "1", features = ["derive"] }
thiserror = "1"
uuid = { version = "1", features = ["v4"] }
