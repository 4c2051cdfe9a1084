[package]
name = "iridium_stomp"
version = "0.1.0"
edition = "2021"
publish = false

[dependencies]
bytes = "1"
chrono = "0.4"
clap = { version = "4", features = ["derive"] }
crossterm = "*"
futures = "0.3"
ratatui = "*"
thiserror = "*"
tokio = { version = "1", features = ["full"] }
tokio-util = { version = "0.7", features = ["codec"] }

[dev-dependencies]
rand = "0.8"
