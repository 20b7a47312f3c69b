[package]
name = "blog_markdown"
version = "0.1.0"
edition = "2021"
publish = false

[dependencies]
accept-language = "=3.1.0"
atom_syndication = "=0.12.10"
axum = "=0.8.9"
chrono = { version = "=0.4.45", features = ["unstable-locales"] }
confy = "=2.0.0"
reqwest = { version = "=0.13.5", default-features = false }
serde = { version = "=1.0.229", features = ["derive"] }
tokio = { version = "=1.53.2", features = ["rt-multi-thread", "macros", "net", "fs", "io-util"] }
tracing-subscriber = "=0.3.23"
url = { version = "=2.5.8", features = ["serde"] }
