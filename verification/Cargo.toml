[package]
name = "fleets"
version = "0.1.0"
edition = "2021"
publish = false

[dependencies]
anyhow = "1"
clap = { version = "4", features = ["derive"] }
indexmap = "2"
noyalib = "*"
opentelemetry = "*"
opentelemetry-otlp = "*"
opentelemetry_sdk = "*"
regex = "1"
serde = { version = "1", features = ["derive"] }
serde_json = { version = "1", features = ["preserve_order"] }
toml = "*"
tracing = "0.1"
tracing-opentelemetry = "*"
tracing-subscriber = "0.3"
