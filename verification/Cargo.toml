[package]
name = "plc_relay"
version = "0.1.0"
edition = "2021"
publish = false

[dependencies]
itertools = "0.10"
tokio = { version = "1", features = ["full"] }
tokio-native-tls = "0.3"
native-tls = "0.2"
tokio-stream = "0.1"
tokio-util = { version = "0.7", features = ["io"] }
bytes = "1"
crossterm = "0.25"
tui = "0.19"
clap = { version = "4", features = ["derive"] }
colored = "2"
futures = "0.3"
hex = "0.4"
reqwest = { version = "0.11", features = ["blocking", "json"] }
serde = { version = "1", features = ["derive"] }
thiserror = "1"
anyhow = "1"
async-trait = "0.1"
