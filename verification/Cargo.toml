[package]
name = "depth"
version = "0.1.0"
edition = "2021"
publish = false

[dependencies]
petgraph = "*"
toml = "*"
clap = { version = "*", features = ["derive"] }
crates_io_api = "*"
