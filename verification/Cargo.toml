[package]
name = "code_indexing"
version = "0.1.0"
edition = "2021"
publish = false

[dependencies]
tree-sitter = "*"
tree-sitter-typescript = "*"
glob = "*"
clap = "*"
log = "*"
env_logger = "*"
serde = { version = "*", features = ["derive"] }
serde_json = "*"
tide = "*"
async-std = { version = "*", features = ["attributes"] }
http-types = "*"
lazy_static = "*"
