[package]
name = "safari-binarycookies"
version = "0.1.0"
edition = "2021"
publish = false

[dependencies]
time = { version = "0.3", features = ["serde", "formatting", "parsing"] }
serde = { version = "1", features = ["derive"] }
thiserror = "2"
