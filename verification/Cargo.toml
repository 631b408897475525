[package]
name = "niphas"
version = "0.1.0"
edition = "2021"
publish = false

[dependencies]
sha2 = "=0.10.9"
base64 = "=0.22.1"
ed25519-dalek = "=2.2.0"
time = { version = "=0.3.55", features = ["formatting"] }
tokio = { version = "1", features = ["full"] }
serde = { version = "1", features = ["derive"] }
serde_json = "1"
axum = "0.8"
reqwest = { version = "0.12", default-features = false, features = ["json", "rustls-tls"] }
kube = { version = "1", features = ["runtime", "derive"] }
k8s-openapi = { version = "0.25", features = ["latest"] }
schemars = "0.8"
tracing = "0.1"
tracing-subscriber = { version = "0.3", features = ["env-filter"] }
figment = { version = "0.10", features = ["yaml", "env"] }
libc = "0.2"
async-compression = { version = "0.4", features = ["tokio", "zstd", "xz", "bzip2"] }
futures = "0.3"
anyhow = "1"
hostname = "0.4"
thiserror = "2"
tower-http = { version = "0.6", features = ["timeout", "trace", "catch-panic"] }
