[package]
name = "cfind"
version = "0.1.0"
edition = "2021"
publish = false

[dependencies]
anyhow = "1"
clap = { version = "4", features = ["derive"] }
rayon = "1"
regex = "1"
rusqlite = { version = "*", features = ["bundled"] }
strsim = "*"
tree-sitter = "*"
tree-sitter-c-sharp = "*"
tree-sitter-javascript = "*"
tree-sitter-rust = "*"
tree-sitter-typescript = "*"
walkdir = "2"
