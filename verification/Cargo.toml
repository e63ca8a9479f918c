[package]
name = "factstore"
version = "0.1.0"
edition = "2021"
publish = false

[dependencies]
bincode = "1"
csv = "1"
flate2 = "1"
serde = { version = "1", features = ["derive"] }
scoped_threadpool = "*"
