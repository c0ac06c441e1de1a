[package]
name = "rinha"
version = "0.1.0"
edition = "2021"
publish = false

[dependencies]
flate2 = "1"
half = "2"
libc = "0.2"
memchr = "2"
mimalloc = "0.1"
serde = { version = "1", features = ["derive"] }
serde_json = "1"
threadpool = "1"
tokio = { version = "1", features = ["io-util", "net", "rt"] }
