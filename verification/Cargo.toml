[package]
name = "fail2ban_stats"
version = "0.1.0"
edition = "2021"
publish = false

[dependencies]
ansi_term = "*"
clap = { version = "*", features = ["derive"] }
csv = "*"
env_logger = "*"
log = "*"
rusqlite = { version = "*", features = ["bundled"] }
