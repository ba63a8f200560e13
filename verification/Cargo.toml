[package]
name = "taskhist"
version = "0.1.0"
edition = "2021"
publish = false

[dependencies]
anyhow = "1"
atty = "0.2"
chrono = "0.4"
clap = { version = "4", features = ["derive"] }
colored = "2"
memchr = "2"
serde = { version = "1", features = ["derive"] }
serde_json = "1"
shell-words = "1"
