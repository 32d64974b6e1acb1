[package]
name = "autofix"
version = "0.1.0"
edition = "2021"
publish = false

[dependencies]
clap = "*"
colored = "*"
quick-error = "*"
rustfix = "*"
serde = { version = "*", features = ["derive"] }
serde_json = "*"
