[package]
name = "lambda_runtime_errors"
version = "0.1.0"
edition = "2021"
publish = false

[dependencies]
backtrace = "*"
http = "*"
hyper = "*"
serde = { version = "*", features = ["derive"] }
serde_json = "*"
