[package]
name = "tally_terminal"
version = "0.1.0"
edition = "2021"
publish = false

[dependencies]
serde = { version = "=1.0.229", features = ["derive"] }
serde_json = "=1.0.151"
tokio = { version = "=1.53.2", features = ["rt-multi-thread", "macros", "process", "io-util", "sync", "time", "signal", "fs"] }
log = "=0.4.34"
simplelog = "=0.12.2"
chrono = "=0.4.45"
