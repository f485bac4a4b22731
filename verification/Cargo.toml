[package]
name = "gem_downloads"
version = "0.1.0"
edition = "2021"
publish = false

[dependencies]
anyhow = "=1.0.104"
chrono = { version = "=0.4.45", features = ["serde"] }
clap = { version = "=4.6.7", features = ["derive"] }
clap_derive = "=4.6.7"
csv = "=1.4.0"
humantime = "=2.4.0"
indicatif = { version = "=0.17.11", features = ["rayon"] }
itertools = "=0.14.0"
rayon = "=1.12.0"
reqwest = { version = "=0.12.28", default-features = false, features = ["blocking"] }
rusqlite = { version = "=0.32.1", features = ["bundled"] }
serde = { version = "=1.0.229", features = ["derive"] }
serde_json = "=1.0.151"
url = "=2.5.8"
