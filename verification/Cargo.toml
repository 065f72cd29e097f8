[package]
name = "commit_graph"
version = "0.1.0"
edition = "2021"
publish = false

[dependencies]
anyhow = "1"
curl = "0.4"
failure = "0.1"
fbinit = "*"
futures = "0.3"
itertools = "*"
log = "0.4"
serde = { version = "1", features = ["derive"] }
serde_cbor = "*"
slog = "2"
tokio = { version = "1", features = ["rt"] }
url = "2"
