[package]
name = "in_memory_network"
version = "0.1.0"
edition = "2021"
publish = false

[dependencies]
anyhow = "=1.0.104"
async-lock = "=3.5.0"
byteorder = "=1.5.0"
bytes = "=1.12.1"
clap = { version = "=4.6.7", features = ["derive"] }
event-listener = "=5.4.2"
fastrand = "=2.5.0"
futures = "=0.3.34"
futures-util = "=0.3.34"
hex = "=0.4.3"
parking_lot = "=0.12.5"
pcap-file = "=2.0.0"
pnet_packet = "=0.35.0"
quinn = { version = "=0.11.12", default-features = false, features = ["runtime-tokio", "rustls-ring", "log"] }
quinn-proto = { version = "=0.11.19", default-features = false, features = ["rustls-ring", "qlog"] }
rustls = { version = "=0.23.46", default-features = false, features = ["ring", "std"] }
serde = { version = "=1.0.229", features = ["derive"] }
serde_ignored = "=0.1.14"
serde_json = "=1.0.154"
serde_with = "=3.24.0"
tokio = { version = "=1.54.1", features = ["rt", "time", "sync", "macros", "test-util"] }
tracing-subscriber = { version = "=0.3.23", features = ["env-filter"] }
uuid = { version = "=1.29.0", features = ["serde"] }
