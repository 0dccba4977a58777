[package]
name = "prometheus-scrape-rs"
version = "0.1.0"
edition = "2021"
publish = false

[dependencies]
anyhow = "=1.0.104"
bytes = "=1.12.1"
clap = { version = "=4.6.7", features = ["derive"] }
futures = { version = "=0.3.34", default-features = false, features = ["std"] }
glob = "=0.3.4"
http = "=1.5.0"
k8s-openapi = { version = "=0.29.0", features = ["latest"] }
kube = { version = "=5.0.0", default-features = false, features = ["client", "runtime", "rustls-tls", "ring"] }
md-5 = "=0.11.0"
memchr = "=2.8.3"
mimalloc = { version = "=0.1.52", default-features = false }
regex = "=1.13.1"
reqwest = { version = "=0.12.28", default-features = false, features = ["charset", "rustls-tls", "gzip"] }
serde = { version = "=1.0.229", features = ["derive"] }
serde-saphyr = "=2.0.0"
snap = "=1.1.2"
tokio = { version = "=1.54.1", features = ["full"] }
tracing = "=0.1.44"
tracing-subscriber = { version = "=0.3.23", features = ["env-filter"] }

[dev-dependencies]
prost = "=0.14.4"
