[package]
name = "trace"
version = "0.1.0"
edition = "2021"
publish = false

[dependencies]
indexmap = "2"
anyhow = "1"
clap = { version = "4", features = ["derive"] }
walkdir = "2"
rusqlite = "*"
tree-sitter = "*"
tree-sitter-c = "*"
