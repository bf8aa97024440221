[package]
name = "jamcounter"
version = "0.1.0"
edition = "2021"
publish = false

[dependencies]
regex = "1"
scraper = "*"
anyhow = "1"
figment = { version = "*", features = ["env"] }
futures = "0.3"
openai = "*"
ordered-float = "*"
reqwest = "*"
serde = { version = "1", features = ["derive"] }
serde_json = "1"
tokio = { version = "1", features = ["macros", "rt-multi-thread"] }
