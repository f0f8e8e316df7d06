[package]
name = "disk_scanner"
version = "0.2.0"
edition = "2021"
publish = false

[dependencies]
humansize = "2"
dashmap = "6"
parking_lot = "0.12"
rayon = "1"
libc = "0.2"
serde = { version = "1", features = ["derive"] }
