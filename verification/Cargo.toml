[package]
name = "wordspell"
version = "0.1.0"
edition = "2021"
publish = false

[dependencies]
ropey = { version = "=1.6.1", default-features = false }
stringmetrics = "=2.2.2"
url = "=2.5.8"
tower-lsp = "=0.20.0"
tokio = { version = "=1.53.2", features = ["io-std", "macros", "rt-multi-thread"] }
clap = { version = "=4.6.7", features = ["derive"] }
