[package]
name = "codegraph"
version = "0.1.0"
edition = "2021"
publish = false

[dependencies]
anyhow = "=1.0.104"
clap = { version = "=4.6.7", features = ["derive"] }
ignore = "=0.4.34"
notify = "=8.2.1"
petgraph = "=0.8.3"
rayon = "=1.12.0"
regex = "=1.13.1"
reqwest = { version = "=0.13.5", default-features = false, features = ["blocking", "json"] }
rmcp = { version = "=3.8.0", features = ["server", "macros", "transport-io", "schemars"] }
rusqlite = { version = "=0.41.1", features = ["bundled", "functions"] }
serde = { version = "=1.0.229", features = ["derive"] }
serde_json = { version = "=1.0.154", features = ["preserve_order"] }
sha2 = "=0.11.1"
sqlite-vec = "=0.1.9"
thiserror = "=2.0.21"
tokio = { version = "=1.54.1", features = ["rt-multi-thread", "macros", "io-std"] }
toml = "=1.1.8"
toml_edit = "=0.25.17"
tree-sitter = "=0.27.1"
tree-sitter-go = "=0.25.0"
tree-sitter-javascript = "=0.25.0"
tree-sitter-python = "=0.25.0"
tree-sitter-rust = "=0.24.2"
tree-sitter-typescript = "=0.23.2"
zstd = "=0.14.3"
