[package]
name = "cljvindent_core"
version = "0.1.0"
edition = "2021"
publish = false

[dependencies]
tree-sitter = "*"
tree-sitter-clojure = "*"
clap = { version = "4", features = ["derive"] }
tracing = "*"
tracing-subscriber = { version = "*", features = ["json"] }
tracing-appender = "*"
