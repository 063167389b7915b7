[package]
name = "bondsbot"
version = "0.1.0"
edition = "2021"
publish = false

[dependencies]
scraper = "*"
clap = { version = "*", features = ["derive"] }
serde = { version = "*", features = ["derive"] }
reqwest = { version = "*", default-features = false, features = ["blocking"] }
thousands = "*"
