[package]
name = "multipart"
version = "0.1.0"
edition = "2021"
publish = false

[dependencies]
mime = "0.3"
hyper = { version = "1", default-features = false }
