[package]
name = "quickfile"
version = "0.1.0"
edition = "2021"
publish = false

[dependencies]
nucleo-matcher = "0.3"
tokio = { version = "1", features = ["rt-multi-thread", "net", "io-util", "time", "macros"] }

[dev-dependencies]
serde_json = "1"
