[package]
name = "pingmon"
version = "0.1.0"
edition = "2021"
publish = false

[dependencies]
rand = "0.8"
pinger = "*"
tokio = { version = "1", features = ["rt-multi-thread", "macros", "time", "sync"] }
