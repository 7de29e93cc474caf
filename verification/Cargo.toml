[package]
name = "lci_codegraph"
version = "0.1.0"
edition = "2021"
publish = false

[dependencies]
tree-sitter = "*"
serde = { version = "*", features = ["derive"] }
bon = "*"
tracing = "*"

[dev-dependencies]
tree-sitter-rust = "*"
tree-sitter-python = "*"
tree-sitter-javascript = "*"
tree-sitter-typescript = "*"
tree-sitter-java = "*"
