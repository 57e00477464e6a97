[package]
name = "taskflow"
version = "0.1.0"
edition = "2021"
publish = false

[dependencies]
http = "*"
twoway = "*"
futures = "*"
tokio = { version = "*", features = ["sync", "rt", "time", "rt-multi-thread"] }
