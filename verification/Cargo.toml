[package]
name = "safety_pass"
version = "0.1.0"
edition = "2021"
publish = false

[dependencies]
safety-net = { version = "=0.14.0", features = ["graph"] }
clap = { version = "=4.6.7", features = ["derive"] }
