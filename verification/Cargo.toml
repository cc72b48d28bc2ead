[package]
name = "journey_bot"
version = "0.1.0"
edition = "2021"
publish = false

[dependencies]
unicode-normalization = "*"
tokio = { version = "*", features = ["rt-multi-thread", "sync", "time", "macros"] }
