[package]
name = "netmon"
version = "0.1.0"
edition = "2021"
publish = false

[dependencies]
serde = { version = "*", features = ["derive"] }
serde_json = "*"
chrono = "*"
sysinfo = "*"
netstat2 = "*"
network-interface = "*"
