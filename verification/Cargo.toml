[package]
name = "jjpwrgem"
version = "0.1.0"
edition = "2021"
publish = false

[dependencies]
annotate-snippets = "0.12"
anstream = "*"
clap = { version = "4", features = ["derive"] }
serde = { version = "1", features = ["derive"] }
serde_json = "1"
tower-lsp-server = "*"
dashmap = "*"
tokio = { version = "1", features = ["rt-multi-thread", "io-std", "macros"] }
