[package]
name = "aetheldb"
version = "0.1.0"
edition = "2021"
publish = false

[dependencies]
sha2 = "0.10"
serde = { version = "1", features = ["derive"] }
serde_json = "1"
anyhow = "1"
thiserror = "1"
clap = { version = "4", features = ["derive", "env"] }
tokio = { version = "1", features = ["full"] }
tracing = "0.1"
tracing-subscriber = { version = "0.3", features = ["env-filter"] }
prometheus = { version = "0.13", default-features = false }
once_cell = "1"
async-trait = "0.1"
futures = "0.3"
object_store = { version = "0.11", features = ["aws", "azure", "gcp"] }
ureq = { version = "2", features = ["json"] }
tiny_http = "0.12"
include_dir = "0.7"
