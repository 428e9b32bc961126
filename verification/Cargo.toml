[package]
name = "solidate"
version = "0.1.0"
edition = "2021"
publish = false

[dependencies]
blake3 = "1"
comrak = { version = "*", default-features = false }
similar = "2"
subtle = "2"
serde = { version = "1", features = ["derive"] }
serde_json = "1"
thiserror = "2"
time = { version = "0.3", features = ["formatting", "serde"] }
argon2 = "0.5"
getrandom = "0.3"
tracing = "0.1"
tracing-subscriber = { version = "0.3", features = ["env-filter", "json"] }
anyhow = "1"
clap = { version = "4", features = ["derive", "env"] }
dotenvy = "0.15"
walkdir = "2"
tokio = { version = "1", features = ["macros", "rt-multi-thread"] }
