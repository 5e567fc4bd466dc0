[package]
name = "lenso_terminal"
version = "0.1.0"
edition = "2021"
publish = false

[dependencies]
clap = { version = "4", features = ["string"] }
serde = { version = "1", features = ["derive"] }
serde_json = "1"
shell-words = "1"
futures = "0.3"
lenso = "*"
lenso-kernel = "*"
lenso-contract-authoring = "*"
