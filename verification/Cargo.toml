[package]
name = "goose"
version = "0.1.0"
edition = "2021"
publish = false

[dependencies]
url = "2"
rand = "0.8"
http = "0.2"
reqwest = { version = "0.11", default-features = false, features = ["blocking"] }
tokio = { version = "1", features = ["rt", "rt-multi-thread", "time", "sync", "macros"] }
