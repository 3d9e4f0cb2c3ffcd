[package]
name = "treedb"
version = "0.1.0"
edition = "2021"
publish = false

[dependencies]
allocator-api2 = "0.2"
bincode = "1.3"
bytes = "1"
lru = "0.7"
serde = { version = "1", features = ["derive"] }
thiserror = "1"
zerocopy = { version = "0.8", features = ["derive"] }
