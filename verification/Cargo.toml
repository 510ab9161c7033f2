[package]
name = "fcss"
version = "0.1.0"
edition = "2021"
publish = false

[dependencies]
clap = "2"
inotify = "0.9"
nom = { version = "6", default-features = false, features = ["std"] }
serde = { version = "1", features = ["derive"] }
serde_json = "1"
