[package]
name = "oinky"
version = "0.1.0"
edition = "2021"
publish = false

[dependencies]
comrak = "=0.56.0"
regex = "=1.13.1"
serde_json = { version = "=1.0.151", features = ["preserve_order"] }
serde = { version = "=1.0.229", features = ["derive"] }
handlebars = "=6.4.4"
isahc = "=2.0.1"
hotwatch = "=0.5.0"
chrono = "=0.4.45"
dotenv = "=0.15.0"
