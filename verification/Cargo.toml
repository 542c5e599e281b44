[package]
name = "course_catalog"
version = "0.1.0"
edition = "2021"
publish = false

[dependencies]
dot = "*"
indicatif = "*"
reqwest = { version = "*", default-features = false, features = ["blocking", "rustls-tls"] }
serde = { version = "*", features = ["derive"] }
serde_json = "*"
