[package]
name = "rust_docs_bot"
version = "0.1.0"
edition = "2021"
publish = false

[dependencies]
anyhow = "1"
async-trait = "0.1"
dotenvy = "0.15"
mimalloc = "0.1"
moka = { version = "0.12", features = ["future"] }
nucleo-matcher = "0.3"
reqwest = { version = "0.12", default-features = false, features = ["json", "rustls-tls"] }
serde = { version = "1", features = ["derive"] }
serde_json = "1"
tl = "0.7"
tokio = { version = "1", features = ["rt", "macros", "time"] }
tracing = "0.1"
tracing-subscriber = { version = "0.3", features = ["env-filter"] }
twilight-gateway = "*"
twilight-http = "*"
twilight-model = "*"
