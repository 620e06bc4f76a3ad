[package]
name = "guiltty"
version = "0.1.0"
edition = "2021"
publish = false

[dependencies]
image = { version = "=0.25.10", default-features = false, features = ["png", "jpeg", "gif", "bmp"] }
kittage = "=0.4.0"

[dev-dependencies]
base64 = "0.22"
