[package]
name = "irqtop"
version = "0.1.0"
edition = "2021"
publish = false

[dependencies]
memchr = "2"
anyhow = "1"
clap = { version = "4", features = ["derive"] }
crossterm = "0.27"
ratatui = "0.26"
term_size = "0.3"
