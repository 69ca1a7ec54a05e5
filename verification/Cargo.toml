[package]
name = "what_next_back"
version = "0.1.0"
edition = "2021"
publish = false

[dependencies]
anyhow = "1"
argon2 = { version = "0.5", features = ["std"] }
chrono = "0.4"
csv = "1"
dotenvy = "0.15"
jsonwebtoken = "9"
regex = "1"
reqwest = { version = "0.12", default-features = false, features = ["rustls-tls"] }
rocket = { version = "0.5", features = ["json"] }
rusqlite = { version = "0.31", features = ["bundled"] }
serde = { version = "1", features = ["derive"] }
serde_json = "1"
strum = { version = "0.26", features = ["derive"] }
strum_macros = "0.26"
