[package]
name = "token_runtime"
version = "0.1.0"
edition = "2021"
publish = false

[dependencies]
anyhow = "1"
tracing = "0.1"
notify = "*"
arboard = { version = "3", default-features = false }
tokio = { version = "1", features = ["rt", "process", "io-util", "time", "macros"] }
ignore = "0.4"
libc = "0.2"
ropey = "1"

[dev-dependencies]
tempfile = "3"
