[package]
name = "macmemana"
version = "0.3.1"
edition = "2021"
publish = false

[dependencies]
anyhow = "1"
clap = { version = "4", features = ["derive"] }
crossterm = "0.27"
libc = "0.2"
ratatui = "0.26"
serde = { version = "1", features = ["derive"] }
serde_json = "1"
sysinfo = "0.30"
uuid = { version = "1", features = ["v4"] }

[dev-dependencies]
regex = "1"
