[package]
name = "code_blocks"
version = "0.1.0"
edition = "2021"
publish = false

[dependencies]
tree-sitter = "0.20"
anyhow = "1"
serde = { version = "1", features = ["derive"] }
serde_json = "1"
libloading = "0.8"

[dev-dependencies]
tree-sitter-rust = "0.20"
tree-sitter-typescript = "0.20"
tree-sitter-python = "0.20"
