[package]
name = "stash"
version = "0.1.0"
edition = "2021"
publish = false

[dependencies]
rusqlite = { version = "=0.40.2", features = ["bundled", "fallible_uint"] }
imagesize = "=0.15.0"
base64 = "=0.22.1"
wl-clipboard-rs = "=0.9.4"
ratatui = "=0.30.2"
crossterm = "=0.29.0"
clap = { version = "=4.6.7", features = ["derive"] }
wayland-client = "=0.31.15"
wayland-protocols-wlr = "=0.3.12"
