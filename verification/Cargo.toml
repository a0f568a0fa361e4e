[package]
name = "workspace"
version = "0.1.0"
edition = "2021"
publish = false

[dependencies]
clap = "*"
colored = "*"
term_grid = "*"

[dev-dependencies]
toml = "*"
