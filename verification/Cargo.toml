[package]
name = "maze_search"
version = "0.1.0"
edition = "2021"
publish = false

[dependencies]
clap = { version = "=4.6.7", features = ["cargo"] }
crossterm = "=0.29.0"
priority-queue = "=2.7.0"
rustc-hash = "=2.1.3"
