[package]
name = "metco"
version = "0.1.0"
edition = "2021"
publish = false

[dependencies]
chrono = "*"
clap = { version = "*", features = ["derive"] }
figment = { version = "*", features = ["toml", "env"] }
humantime-serde = "*"
log = "*"
postgres = "*"
serde = { version = "*", features = ["derive"] }
stderrlog = "*"
