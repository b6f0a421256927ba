[package]
name = "memory_monitor"
version = "0.1.0"
edition = "2021"
publish = false

[dependencies]
anyhow = "=1.0.104"
clap = { version = "=4.6.7", features = ["derive"] }
crossterm = "=0.28.1"
libloading = "=0.8.9"
object = { version = "=0.36.7", default-features = false, features = ["read_core", "elf", "unaligned", "std"] }
ratatui = "=0.29.0"
