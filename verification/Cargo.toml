[package]
name = "rustelier"
version = "0.1.0"
edition = "2021"
publish = false

[dependencies]
ignore = "=0.4.34"
nucleo-matcher = "=0.3.1"
pulldown-cmark = { version = "=0.13.6", default-features = false }
serde = { version = "=1.0.229", features = ["derive"] }
serde_json = "=1.0.154"
grep-matcher = "=0.1.9"
grep-regex = "=0.1.14"
grep-searcher = "=0.1.17"
notify = "=8.2.1"
gix = { version = "=0.90.0", default-features = false, features = ["status", "sha1"] }
tree-sitter = "=0.27.1"
tree-sitter-rust = "=0.24.2"
tree-sitter-swift = "=0.7.4"
tree-sitter-python = "=0.25.0"
tree-sitter-javascript = "=0.25.0"
tree-sitter-typescript = "=0.23.2"
tree-sitter-bash = "=0.25.1"
