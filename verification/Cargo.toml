[package]
name = "folder_cleaner"
version = "0.1.0"
edition = "2021"
publish = false

[dependencies]
chrono = "0.4"
clap = { version = "4", features = ["derive"] }
directories = "5"
inquire = "0.7"
serde = { version = "1", features = ["derive"] }
serde_derive = "1"
toml = "0.8"
walkdir = "2"
