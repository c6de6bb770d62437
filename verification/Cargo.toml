[package]
name = "omarchy-hotspot"
version = "0.1.0"
edition = "2021"
publish = false

[dependencies]
qrcode = "0.14"
image = { version = "0.25", default-features = false, features = ["png"] }
dialoguer = "0.11"
ctrlc = "3"
