[package]
name = "haltui"
version = "0.1.0"
edition = "2021"
publish = false

[dependencies]
regex = "1"
ratatui = "*"
crossterm = "*"
libc = "0.2"
