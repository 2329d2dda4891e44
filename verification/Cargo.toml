[package]
name = "filedrop"
version = "0.1.0"
edition = "2021"
publish = false

[dependencies]
axum = { version = "*", features = ["multipart"] }
pnet = "*"
qrcode = { version = "*", default-features = false, features = ["svg"] }
tokio = { version = "*", features = ["rt", "macros", "fs", "io-util", "net"] }
tower-http = { version = "*", features = ["fs"] }
