[package]
name = "cyx"
version = "0.1.0"
edition = "2021"
publish = false

[dependencies]
rusqlite = { version = "*", features = ["bundled"] }
chrono = "*"
anyhow = "*"
clap = { version = "*", features = ["derive"] }
serde = { version = "*", features = ["derive"] }
serde_json = "*"
toml = "*"
colored = "*"
directories = "*"
dirs = "*"
semver = "*"
regex = "*"
html-escape = "*"
html2text = "*"
urlencoding = "*"
comfy-table = "*"
dialoguer = "*"
indicatif = "*"
walkdir = "*"
reqwest = { version = "*", default-features = false, features = ["blocking", "json", "rustls-tls"] }

[dev-dependencies]
tempfile = "*"
