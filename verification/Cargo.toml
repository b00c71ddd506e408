[package]
name = "lseq"
version = "0.1.0"
edition = "2021"
publish = false

[dependencies]
rand = "=0.8.8"

[dev-dependencies]
uuid = { version = "=1.27.0", features = ["v4"] }
skiplist = "=1.2.0"
