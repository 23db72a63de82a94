[package]
name = "rusty_measurement_runner"
version = "0.1.0"
edition = "2021"
publish = false

[dependencies]
itertools = "*"
toml = "*"
serde = { version = "1", features = ["derive"] }
clap = { version = "4", features = ["derive"] }
tracing = "0.1"
tracing-subscriber = "0.3"
indicatif = "*"
