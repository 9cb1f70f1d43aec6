[package]
name = "command_scheduler"
version = "0.1.0"
edition = "2021"
publish = false

[dependencies]
vexide = { version = "=0.7.0", default-features = false, features = ["core"] }
