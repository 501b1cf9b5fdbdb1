[package]
name = "netproxy"
version = "0.1.0"
edition = "2021"
publish = false

[dependencies]
tokio = { version = "1", features = ["sync", "rt-multi-thread", "net", "io-util", "time", "macros"] }
tokio-native-tls = "0.3"
clap = { version = "4", features = ["derive"] }
env_logger = "*"
log = "0.4"
time = { version = "0.3", features = ["formatting", "local-offset", "macros"] }
