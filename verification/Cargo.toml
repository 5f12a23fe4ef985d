[package]
name = "task_engine"
version = "0.1.0"
edition = "2021"
publish = false

[dependencies]
cryptoxide = "*"
tokio = { version = "*", features = ["rt", "rt-multi-thread", "time"] }
rust-ini = "*"
