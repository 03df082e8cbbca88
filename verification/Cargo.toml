[package]
name = "reewal"
version = "0.1.0"
edition = "2021"
publish = false

[dependencies]
saphyr = "*"
image = { version = "*", default-features = false, features = ["png", "jpeg"] }
