[package]
name = "dcg"
version = "0.1.0"
edition = "2021"
publish = false

[dependencies]
imara-diff = "=0.2.0"
sha2 = "=0.10.9"
tree-sitter = "*"
tree-sitter-rust = "*"
clap = { version = "*", features = ["derive"] }
anyhow = "*"
glob = "*"
flate2 = "*"
content_inspector = "*"
toml = "*"
serde = { version = "*", features = ["derive"] }
mktemp = "*"
time = { version = "*", features = ["formatting", "parsing"] }
