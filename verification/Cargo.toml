[package]
name = "snow_treading"
version = "0.1.0"
edition = "2021"
publish = false

[dependencies]
chrono = "*"
confy = "*"
dirs-2 = "*"
log = "*"
pretty_env_logger = "*"
serde = { version = "*", features = ["derive"] }

[dev-dependencies]
serde_json = "*"
