[package]
name = "eprofiler_tui"
version = "0.1.0"
edition = "2021"
publish = false

[dependencies]
clap = { version = "*", features = ["derive"] }
prost = "*"
ratatui = "*"
tokio = { version = "*", features = ["full"] }
