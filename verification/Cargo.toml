[package]
name = "erldash"
version = "0.1.0"
edition = "2021"
publish = false

[dependencies]
anyhow = "1"
chrono = "0.4"
clap = { version = "3", features = ["derive"] }
crossterm = "0.25"
dirs = "*"
erl_dist = "*"
erl_rpc = "*"
log = "0.4"
simplelog = "*"
smol = "1"
tui = "0.19"
