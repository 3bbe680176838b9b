[package]
name = "rudp"
version = "0.1.0"
edition = "2021"
publish = false

[dependencies]
anyhow = "1"
bit_field = "0.10"
crossbeam-channel = "0.5"
mio = { version = "0.8", features = ["net", "os-poll"] }
rand = "0.8"
