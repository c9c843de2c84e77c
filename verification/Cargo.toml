[package]
name = "html_parser"
version = "0.1.0"
edition = "2021"
publish = false

[dependencies]
reqwest = "*"
tokio = { version = "*", features = ["macros", "rt-multi-thread"] }
