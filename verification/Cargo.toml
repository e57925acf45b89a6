[package]
name = "qmp_scheduler"
version = "0.1.0"
edition = "2021"
publish = false

[dependencies]
anyhow = "*"
clap = { version = "*", features = ["derive"] }
good_lp = "*"
rand = "*"
serde = { version = "*", features = ["derive"] }
serde_json = "*"
serde_tuple = "*"
thiserror = "*"
toml = "*"
tracing = "*"
tracing-subscriber = "*"
