[package]
name = "termwaves"
version = "0.1.0"
edition = "2021"
publish = false

[dependencies]
crossterm = "0.28"
pipewire = "0.9"
ratatui = "0.29"
ringbuf = "0.4"
