[package]
name = "completion"
version = "0.1.0"
edition = "2021"
publish = false

[dependencies]
completion-core = "*"
futures-core = "*"
