[package]
name = "themec"
version = "0.1.0"
edition = "2021"
publish = false

[dependencies]
indexmap = "*"
toml = { version = "*", features = ["preserve_order"] }
serde = { version = "*", features = ["derive"] }
clap = { version = "*", features = ["derive"] }
