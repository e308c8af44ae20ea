[package]
name = "cog"
version = "0.1.0"
edition = "2021"
publish = false

[dependencies]
crossterm = "*"
ratatui = "*"
rand = "*"
rand_xoshiro = "*"
