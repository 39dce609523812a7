[package]
name = "superworm"
version = "0.1.0"
edition = "2021"
publish = false

[dependencies]
bincode = "=1.3.3"
clap = { version = "=3.2.25", features = ["derive"] }
log = "=0.4.35"
serde = { version = "=1.0.229", features = ["derive"] }
tokio = { version = "=1.54.1", features = ["io-util", "macros", "net", "rt-multi-thread", "sync", "time"] }
