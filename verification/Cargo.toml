[package]
name = "beancount_lsp"
version = "0.1.0"
edition = "2021"
publish = false

[dependencies]
anyhow = "=1.0.104"
crossbeam-channel = "=0.5.17"
gen-lsp-types = { version = "=0.11.0", features = ["url"] }
lsp-server = "=0.7.9"
ropey = { version = "=1.6.1", default-features = false, features = ["simd"] }
serde_json = "=1.0.154"
threadpool = "=1.8.1"
tracing = "=0.1.44"
tree-sitter-beancount = "=2.5.1"
url = "=2.5.8"
