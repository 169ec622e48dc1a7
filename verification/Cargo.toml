[package]
name = "pdf_oxide"
version = "0.1.0"
edition = "2021"
publish = false

[dependencies]
clap = { version = "4", features = ["derive"] }
is-terminal = "0.4"
serde = { version = "1", features = ["derive"] }
serde_json = "1"
