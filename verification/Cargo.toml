[package]
name = "screenshot_mover"
version = "0.1.0"
edition = "2021"
publish = false

[dependencies]
anyhow = "1"
clap = { version = "4", features = ["derive"] }
dialoguer = { version = "0.11", default-features = false, features = ["fuzzy-select"] }
thiserror = "1"
