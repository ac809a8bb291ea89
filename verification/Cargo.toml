[package]
name = "dendrite"
version = "0.1.0"
edition = "2021"
publish = false

[dependencies]
petgraph = "*"
regex = "1"
chrono = "0.4"
serde = { version = "1", features = ["derive"] }
serde_json = "1"
handlebars = "*"
anyhow = "1"
clap = { version = "4", features = ["derive"] }
ignore = "0.4"
rayon = "1"
ratatui = "*"
crossterm = "*"

[dev-dependencies]
tempfile = "3"
