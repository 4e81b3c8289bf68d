[package]
name = "junction"
version = "0.1.0"
edition = "2021"
publish = false

[dependencies]
http = "1"
once_cell = "1"
rand = "0.8"
thiserror = "1"
tokio = { version = "1", features = ["rt-multi-thread", "sync", "time"] }
tracing = "0.1"
