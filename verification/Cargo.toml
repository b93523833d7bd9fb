[package]
name = "chop"
version = "0.1.0"
edition = "2021"
publish = false

[dependencies]
crop = { version = "0.4", features = ["graphemes"] }
im = "15"
arc-swap = "1"
log = "0.4"
env_logger = "0.11"
chrono = "0.4"
term_size = "0.3"
