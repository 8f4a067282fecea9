[package]
name = "rinse"
version = "0.1.0"
edition = "2021"
publish = false

[dependencies]
crossterm = "0.28"
native-tls = "0.2"
ratatui = "0.29"
rustfft = "6"
serde_json = "1"
