[package]
name = "secure_notes"
version = "0.1.0"
edition = "2021"
publish = false

[dependencies]
aes-gcm = "0.10"
anyhow = "1"
chrono = "0.4"
csv = "1"
dotenv = "0.15"
rusqlite = { version = "*", features = ["bundled"] }
textwrap = "0.16"
