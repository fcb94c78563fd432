[package]
name = "sprokkel"
version = "0.1.0"
edition = "2021"
publish = false

[dependencies]
anyhow = "1"
bitvec = "1"
clap = { version = "4", features = ["derive"] }
image = { version = "0.25", default-features = false, features = ["png", "jpeg", "webp"] }
jotdown = "0.4"
latex2mathml = "0.2"
log = "0.4"
minijinja = { version = "2", features = ["loader"] }
notify-debouncer-full = "0.3"
pulldown-cmark = { version = "0.10", default-features = false }
pulldown-cmark-escape = "0.10"
rayon = "1"
serde = { version = "1", features = ["derive"] }
serde_yaml = "0.9"
simplelog = "0.12"
toml = "0.8"
tree-sitter-bash = "0.20"
tree-sitter-c = "0.20"
tree-sitter-cpp = "0.20"
tree-sitter-highlight = "0.20"
tree-sitter-javascript = "0.20"
tree-sitter-nix = "0.0.2"
tree-sitter-python = "0.20"
tree-sitter-rust = "0.20"
tree-sitter-toml = "0.20"
tree-sitter-typescript = "0.20"
walkdir = "2"
