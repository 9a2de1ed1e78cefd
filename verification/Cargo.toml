[package]
name = "pr_tracker"
version = "0.1.0"
edition = "2021"
publish = false

[dependencies]
anyhow = "1"
async-std = { version = "1", features = ["attributes"] }
clap = { version = "4", features = ["derive"] }
futures-util = "0.3"
http-types = "2"
lettre = { version = "0.11", default-features = false, features = ["smtp-transport", "builder"] }
once_cell = "1"
regex = "1"
serde = { version = "1", features = ["derive"] }
serde_json = "1"
tide = "0.16"
urlencoding = "2"
