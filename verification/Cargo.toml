[package]
name = "snap_pipeline"
version = "0.1.0"
edition = "2021"
publish = false

[dependencies]
sha2 = "*"
chrono = "*"
anyhow = "*"
axum = "*"
bytes = "*"
compose-rs = "*"
env_logger = "*"
log = "*"
lz4 = "*"
object_store = { version = "*", features = ["gcp"] }
serde = { version = "*", features = ["derive"] }
serde_json = "*"
structopt = "*"
tar = "*"
tokio = { version = "*", features = ["macros", "rt-multi-thread", "signal", "fs"] }
tokio-cron-scheduler = "*"
tower-http = { version = "*", features = ["fs", "timeout", "trace"] }
walkdir = "*"
