[package]
name = "easysql"
version = "0.1.0"
edition = "2021"
publish = false

[dependencies]
anyhow = "1"
clap = { version = "4", features = ["derive"] }
colored = "2"
crossterm = "0.28"
dirs = "5"
libc = "0.2"
ratatui = "0.29"
