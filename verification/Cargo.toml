[package]
name = "rubiks"
version = "0.1.0"
edition = "2021"
publish = false

[dependencies]
sled = "0.34"
clap = { version = "4", features = ["derive"] }
crossterm = "0.27"
ratatui = "0.26"
petgraph = "0.6"

[dev-dependencies]
rand = "0.8"
