[package]
name = "git_conventional"
version = "0.1.0"
edition = "2021"
publish = false

[dependencies]
unicase = "*"
serde = { version = "*", features = ["derive"] }
