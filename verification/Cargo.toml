[package]
name = "mnemosyne"
version = "0.1.0"
edition = "2021"
publish = false

[dependencies]
anyhow = "*"
chrono = "*"
clap = { version = "*", features = ["derive"] }
hex = "*"
ignore = "*"
indicatif = "*"
infer = "*"
json5 = "*"
os_info = "*"
owo-colors = "*"
serde = { version = "*", features = ["derive"] }
serde_json = "*"
sha2 = "*"
walkdir = "*"
