[package]
name = "cargo_tree_tui"
version = "0.1.0"
edition = "2021"
publish = false

[dependencies]
anyhow = "1"
cargo_metadata = "*"
clap = { version = "4", features = ["derive"] }
clap-cargo = "*"
crossterm = "*"
ratatui = "*"
rustc-hash = "2"
