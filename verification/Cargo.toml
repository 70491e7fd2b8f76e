[package]
name = "gitignore_analysis"
version = "0.1.0"
edition = "2021"
publish = false

[dependencies]
dashmap = "5.5"
tokio = { version = "1", features = ["io-std", "macros", "rt-multi-thread"] }
tower-lsp = "0.20"
url = "2"

[dev-dependencies]
chumsky = "*"
