[package]
name = "riskanvil"
version = "0.1.0"
edition = "2021"
publish = false

[dependencies]
anyhow = "1"
bytes = "1"
clap = { version = "4", features = ["derive"] }
futures-lite = "2"
glommio = "0.9"
libc = "0.2"
memmap2 = "0.9"
metrics-exporter-prometheus = { version = "0.15", default-features = false }
rayon = "1"
serde = { version = "1", features = ["derive"] }
serde_json = "1"
sha2 = "0.10"
tracing = "0.1"
tracing-subscriber = { version = "0.3", features = ["env-filter"] }
