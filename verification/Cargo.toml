[package]
name = "patchwork"
version = "0.1.0"
edition = "2021"
publish = false

[dependencies]
clap = { version = "4", features = ["derive"] }
tree-sitter = "*"
tree-sitter-bash = "*"
tree-sitter-c = "*"
tree-sitter-c-sharp = "*"
tree-sitter-cpp = "*"
tree-sitter-go = "*"
tree-sitter-java = "*"
tree-sitter-javascript = "*"
tree-sitter-php = "*"
tree-sitter-python = "*"
tree-sitter-ruby = "*"
tree-sitter-rust = "*"
tree-sitter-typescript = "*"
