[package]
name = "zeroclaw_runtime"
version = "0.1.0"
edition = "2021"
publish = false

[dependencies]
anyhow = "1"
async-trait = "0.1"
chrono = "0.4"
directories = "*"
opentelemetry = "0.32"
rumqttc = "*"
rusqlite = "*"
serde_json = "1"
tokio = { version = "1", features = ["sync", "rt", "macros", "time"] }
tracing-opentelemetry = "0.33"
tracing-subscriber = "0.3"
