[package]
name = "basemind"
version = "0.1.0"
edition = "2021"
publish = false

[dependencies]
ahash = "=0.8.12"
anyhow = "=1.0.104"
blake3 = "=1.8.7"
clap = { version = "=4.6.7", features = ["derive"] }
fjall = "=3.1.13"
hex = "=0.4.3"
lru = "=0.19.0"
memchr = "=2.8.3"
oxc_allocator = "=0.143.0"
oxc_parser = "=0.143.0"
oxc_resolver = "=11.24.3"
oxc_semantic = "=0.143.0"
oxc_span = "=0.143.0"
oxc_syntax = "=0.143.0"
regex = "=1.13.1"
rmcp = { version = "=3.8.0", features = ["server", "transport-io"] }
rmp-serde = "=1.3.1"
serde = { version = "=1.0.229", features = ["derive"] }
serde_json = "=1.0.154"
streaming-iterator = "=0.1.9"
tokio = { version = "=1.54.1", features = ["rt-multi-thread"] }
tracing = "=0.1.44"
tracing-subscriber = { version = "0.3", features = ["env-filter"] }
tree-sitter = "=0.26.13"
tree-sitter-language-pack = "=1.9.1"
