[package]
name = "process_queue"
version = "0.1.0"
edition = "2021"
publish = false

[dependencies]
futures = "*"
