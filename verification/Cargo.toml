[package]
name = "seismic_risk"
version = "0.1.0"
edition = "2021"
publish = false

[dependencies]
itertools = "0.14"
chrono = { version = "0.4", features = ["serde"] }
color-eyre = "0.6"
csv = "1"
ratatui = "0.29"
reqwest = { version = "0.12", default-features = false, features = ["rustls-tls"] }
serde = { version = "1", features = ["derive"] }
tokio = { version = "1", features = ["macros", "rt-multi-thread"] }
