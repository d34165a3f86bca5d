[package]
name = "dns_client_server"
version = "0.1.0"
edition = "2021"
publish = false

[dependencies]
rand = "0.8"
tokio = { version = "1", features = ["rt-multi-thread", "net", "time", "macros", "signal"] }
clap = { version = "4", features = ["derive"] }
