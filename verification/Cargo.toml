[package]
name = "cypher"
version = "0.1.0"
edition = "2021"
publish = false

[dependencies]
tree-sitter = "0.25"
gram-diagnostics = "*"
anyhow = "1"
ariadne = "0.5"
clap = { version = "4", features = ["derive"] }
serde = { version = "1", features = ["derive"] }
serde_json = "1"
walkdir = "2"
