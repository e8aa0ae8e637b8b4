[package]
name = "yabit"
version = "0.1.0"
edition = "2021"
publish = false

[dependencies]
chrono = { version = "0.4", features = ["serde"] }
clap = "2"
serde = "1"
serde_derive = "1"
serde_json = "1"
