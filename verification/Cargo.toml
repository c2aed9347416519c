[package]
name = "preprocess_cancellation"
version = "0.1.0"
edition = "2021"
publish = false

[dependencies]
any_ascii = "*"
clap = { version = "*", features = ["derive"] }
geo = "*"
itertools = "*"
serde_json = "*"
tempfile = "*"
