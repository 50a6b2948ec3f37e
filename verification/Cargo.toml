[package]
name = "kon_rs"
version = "0.1.0"
edition = "2021"
publish = false

[dependencies]
csv = "1"
serde = { version = "1", features = ["derive"] }
serde_json = "1"
tokio = { version = "1", features = ["rt-multi-thread", "time", "macros"] }
clap = { version = "4", features = ["derive"] }
indicatif = "*"
scraper = "*"

[dev-dependencies]
itertools = "*"
