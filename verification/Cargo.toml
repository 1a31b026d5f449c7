[package]
name = "rotz"
version = "0.1.0"
edition = "2021"
publish = false

[dependencies]
wax = "*"
shellwords = "*"
serde = { version = "*", features = ["derive"] }
serde_yaml = "*"
handlebars = "*"
