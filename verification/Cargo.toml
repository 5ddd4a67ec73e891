[package]
name = "async-fcgi"
version = "0.5.1"
edition = "2021"
publish = false

[dependencies]
async-stream-connection = "*"
bytes = "1"
http = "1"
http-body = "1"
httparse = "1"
log = "0.4"
slab = "0.4"
tokio = { version = "1", features = ["io-util", "macros", "net", "process", "rt", "sync", "time"] }
