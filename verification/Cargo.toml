[package]
name = "pixel_agents"
version = "0.1.0"
edition = "2021"
publish = false

[dependencies]
crossterm = "0.28"
dirs = "5"
rand = "0.8"
ratatui = "0.29"
serde_json = "1"
