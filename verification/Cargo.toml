[package]
name = "fussr"
version = "0.1.0"
edition = "2021"
publish = false

[dependencies]
clap = { version = "4", features = ["derive"] }
crossterm = "0.28"
ratatui = "0.29"
git2 = { version = "0.19", default-features = false }
thiserror = "1"
