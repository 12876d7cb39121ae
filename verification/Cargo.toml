[package]
name = "change_pipeline"
version = "0.1.0"
edition = "2021"
publish = false

[dependencies]
env_logger = "0.11"
futures = "0.3"
log = "0.4"
opentelemetry = "0.23"
opentelemetry-jaeger = "0.22"
opentelemetry_sdk = "0.23"
redis = { version = "0.27", features = ["tokio-comp"] }
tokio = { version = "1", features = ["rt-multi-thread", "macros", "sync"] }
tonic = { version = "0.12", default-features = false }
tracing = "0.1"
tracing-futures = "0.2"
tracing-opentelemetry = "0.24"
tracing-subscriber = { version = "0.3", features = ["env-filter"] }
uuid = { version = "1", features = ["v4"] }
