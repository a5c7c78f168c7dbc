[package]
name = "distill_fs"
version = "0.1.0"
edition = "2021"
publish = false

[dependencies]
anyhow = "1"
async-trait = "0.1"
blake3 = "=1.8.7"
clap = { version = "4", features = ["derive"] }
daemonize = "0.5"
fuse-backend-rs = "0.14"
heed = "=0.22.1"
hex = "=0.4.3"
libc = "0.2"
nydus-api = "=0.4.1"
nydus-rafs = "=0.4.1"
nydus-storage = "=0.7.2"
nydus-utils = "=0.5.1"
opentelemetry = { version = "0.24", features = ["metrics"] }
opentelemetry-otlp = { version = "0.17", default-features = false, features = ["grpc-tonic", "metrics"] }
opentelemetry_sdk = { version = "0.24", features = ["metrics", "rt-tokio-current-thread"] }
rand = "0.8"
redis = { version = "=0.29.5", features = ["tokio-comp"] }
serde_json = "1"
sha2 = "=0.10.9"
signal = "0.7"
tokio = { version = "1", features = ["full"] }
tracing = "0.1"
tracing-appender = "0.2"
tracing-subscriber = "0.3"

[dev-dependencies]
tempfile = "3"
