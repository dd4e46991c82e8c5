[package]
name = "amba"
version = "0.1.0"
edition = "2021"
publish = false

[dependencies]
ctrlc = "*"
reqwest = { version = "*", default-features = false, features = ["blocking"] }
tracing = "*"
url = "*"
