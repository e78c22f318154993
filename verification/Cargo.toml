[package]
name = "kubetransport"
version = "0.1.0"
edition = "2021"
publish = false

[dependencies]
anyhow = "=1.0.104"
futures = "=0.3.34"
k8s-openapi = { version = "=0.27.1", features = ["latest"] }
kube = { version = "=3.1.0", features = ["client", "runtime", "ws"] }
tokio = { version = "=1.53.2", features = ["full"] }
tokio-stream = "=0.1.19"
tracing = "=0.1.44"
tracing-subscriber = "=0.3.23"
