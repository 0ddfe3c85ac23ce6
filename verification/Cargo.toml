[package]
name = "murmur"
version = "0.1.0"
edition = "2021"
publish = false

[dependencies]
blake3 = "=1.8.7"
uuid = { version = "=1.29.0", features = ["v4"] }
rand = "=0.8.8"
serde = { version = "=1.0.229", features = ["derive"] }
postcard = { version = "=1.1.3", features = ["alloc"] }
bytes = "=1.12.1"
tokio = { version = "=1.54.1", features = ["fs", "io-util", "rt", "rt-multi-thread", "macros", "sync", "time", "net"] }
anyhow = "=1.0.104"
thiserror = "=2.0.21"
tracing = "=0.1.44"
reqwest = { version = "=0.12.28", default-features = false }
clap = { version = "4", features = ["derive"] }
mdns-sd = "*"
tracing-subscriber = { version = "0.3", features = ["env-filter"] }

[dev-dependencies]
