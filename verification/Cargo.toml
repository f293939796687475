[package]
name = "httpcore"
version = "0.1.0"
edition = "2021"
publish = false

[dependencies]
flate2 = "*"
encoding = "*"
serde_json = "*"
futures-io = "*"
futures-util = "*"
