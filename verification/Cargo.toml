[package]
name = "ted"
version = "0.1.0"
edition = "2021"
publish = false

[dependencies]
bincode = "0.6"
clap = { version = "2", features = ["yaml"] }
rustbox = "*"
rustc-serialize = "0.3"
termion = "1"
time = "0.1"
