[package]
name = "cam_granular"
version = "0.1.0"
edition = "2021"
publish = false

[dependencies]
cpal = "0.15"
crossterm = "0.28"
nokhwa = { version = "0.10", features = ["input-v4l"] }
ratatui = "0.29"
