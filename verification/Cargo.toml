[package]
name = "datagen"
version = "0.1.0"
edition = "2021"
publish = false

[dependencies]
rand = "*"
rand_distr = "*"
num-modular = "*"
num-prime = "*"
derangements = "*"
serde = { version = "*", features = ["derive"] }
serde_json = "*"
toml = "*"
thiserror = "*"
which = "*"
tempfile = "*"
tokio = { version = "*", features = ["full"] }
axum = { version = "*", features = ["multipart"] }
tower_governor = "*"
tower-http = { version = "*", features = ["trace", "cors", "limit"] }
tracing = "*"
tracing-subscriber = { version = "*", features = ["env-filter"] }
futures = "*"
tokio-stream = "*"
libc = "*"

[dev-dependencies]
petgraph = "*"
