[package]
name = "cadenza"
version = "0.1.0"
edition = "2021"
publish = false

[dependencies]
anyhow = "1"
cpal = "0.15"
crossterm = "0.28"
ratatui = "0.29"
rustfft = "6"
serde = { version = "1", features = ["derive"] }
symphonia = { version = "0.5", features = ["mp3"] }
toml = "0.8"
