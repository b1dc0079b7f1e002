[package]
name = "adaptuner"
version = "0.1.0"
edition = "2021"
publish = false

[dependencies]
num-rational = { version = "0.4", default-features = false, features = ["std"] }
num-integer = "0.1"
num-traits = "0.2"
midi-msg = "*"
midir = "*"
