[package]
name = "vic3data"
version = "0.1.0"
edition = "2021"
publish = false

[dependencies]
jomini = "*"
serde = { version = "*", features = ["derive"] }
