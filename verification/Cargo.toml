[package]
name = "msg_relay"
version = "0.1.0"
edition = "2021"
publish = false

[dependencies]
rsa = "=0.6.1"
rand = "=0.8.8"
rust-crypto = "=0.2.36"
tokio = { version = "=1.53.2", features = ["rt-multi-thread", "net", "io-util", "sync", "time"] }
threadpool = "=1.8.1"
