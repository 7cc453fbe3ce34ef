[package]
name = "trellis"
version = "0.1.0"
edition = "2021"
publish = false

[dependencies]
chrono = "0.4"
getrandom = "0.3"
flate2 = "1"
serde = { version = "1", features = ["derive"] }
serde_json = "1"
directories = "5"
image = { version = "0.25", default-features = false, features = ["png"] }
