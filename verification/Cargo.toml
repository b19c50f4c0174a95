[package]
name = "dreamegg"
version = "0.1.0"
edition = "2021"
publish = false

[dependencies]
chrono = "=0.4.45"
clap = { version = "=3.2.25", features = ["derive"] }
egg = "=0.6.0"
env_logger = "=0.9.3"
log = "0.4"
serde_json = "=1.0.154"
symbolic_expressions = "=5.0.3"
