[package]
name = "across"
version = "0.1.0"
edition = "2021"
publish = false

[dependencies]
chrono = "0.4"
ggez = "0.7"
rand = "0.8"
