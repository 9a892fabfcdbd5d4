[package]
name = "trigger_scores"
version = "0.1.0"
edition = "2021"
publish = false

[dependencies]
clap = { version = "4", features = ["derive"] }
csv = "1"
log = "0.4"
rkyv = "0.8"
serde = { version = "1", features = ["derive"] }
serde_yaml = "0.9"
tracing-subscriber = "0.3"
