[package]
name = "vchat"
version = "0.1.0"
edition = "2021"
publish = false

[dependencies]
sha2 = "0.10"
hex = "0.4"
chrono = "0.4"
ratatui = "0.29"
crossterm = "0.28"
cpal = "0.15"
crossbeam = "0.8"
ringbuf = "0.4"
serde = { version = "1", features = ["derive"] }
thiserror = "2"
color-eyre = "0.6"
tracing = "0.1"
tracing-subscriber = { version = "0.3", features = ["env-filter"] }
log = "0.4"
tokio = { version = "1", features = ["rt"] }
local-ip-address = "*"
public-ip-address = "*"
