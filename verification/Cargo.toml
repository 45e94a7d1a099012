[package]
name = "link_crawler"
version = "0.1.0"
edition = "2021"
publish = false

[dependencies]
scraper = "*"
url = "*"
reqwest = "*"
tokio = { version = "*", features = ["rt", "rt-multi-thread", "macros"] }
actix-web = "*"
serde = { version = "*", features = ["derive"] }
log = "*"
pretty_env_logger = "*"
