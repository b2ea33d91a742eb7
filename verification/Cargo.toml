[package]
name = "file_server"
version = "0.1.0"
edition = "2021"
publish = false

[dependencies]
anyhow = "1"
log = "0.4"
simple_logger = "*"
text_io = "*"
tokio = { version = "1", features = ["rt-multi-thread", "macros", "net", "io-util"] }
