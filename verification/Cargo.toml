[package]
name = "capture_replay"
version = "0.1.0"
edition = "2021"
publish = false

[dependencies]
abomonation = "0.4"
