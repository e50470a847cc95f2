[package]
name = "colony"
version = "0.1.0"
edition = "2021"
publish = false

[dependencies]
seastar = "*"
rand = "*"
noise = "*"
serde = { version = "*", features = ["derive"] }
toml = "*"
crossterm = "*"
ratatui = "*"
