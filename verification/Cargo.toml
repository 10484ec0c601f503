[package]
name = "commentflow"
version = "0.1.0"
edition = "2021"
publish = false

[dependencies]
anyhow = "1"
tree-sitter = "*"
tree-sitter-bash = "*"
tree-sitter-c = "*"
tree-sitter-cpp = "*"
tree-sitter-rust = "*"
unicode-width = "*"
