[package]
name = "contextd"
version = "0.1.0"
edition = "2021"
publish = false

[dependencies]
anyhow = "*"
axum = "*"
clap = { version = "*", features = ["derive"] }
futures-util = "*"
ignore = "*"
indicatif = "0.17"
notify = "*"
ort = "=2.0.0-rc.13"
pdf-extract = "*"
reqwest = { version = "0.12", features = ["stream"] }
rusqlite = { version = "*", features = ["bundled"] }
serde = { version = "*", features = ["derive"] }
serde_json = "*"
tokenizers = "*"
tokio = { version = "*", features = ["full"] }
toml = "*"
tree-sitter = "0.23"
tree-sitter-go = "0.23"
tree-sitter-javascript = "0.23"
tree-sitter-python = "0.23"
tree-sitter-rust = "0.23"
tree-sitter-typescript = "0.23"

[dev-dependencies]
tempfile = "*"
