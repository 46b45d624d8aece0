[package]
name = "raspi"
version = "0.1.0"
edition = "2021"
publish = false

[dependencies]
humantime = "2"
anyhow = "1"
serde = { version = "1", features = ["derive"] }
serde_json = "1"
rouille = "3"
reqwest = { version = "0.12", default-features = false, features = ["blocking", "json"] }
bme280-multibus = "*"
linux-embedded-hal = "*"
