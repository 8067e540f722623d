[package]
name = "adrnaln-cli"
version = "0.1.0"
edition = "2021"
publish = false

[dependencies]
clap = { version = "=4.6.7", features = ["derive"] }
opentelemetry = "=0.17.0"
opentelemetry-jaeger = "=0.16.0"
tokio = { version = "=1.54.1", features = ["full"] }
tracing-opentelemetry = "=0.17.4"
tracing-subscriber = "=0.3.23"
