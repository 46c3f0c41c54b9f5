[package]
name = "sysmon"
version = "0.1.0"
edition = "2021"
publish = false

[dependencies]
rand = "0.9"
sysinfo = "0.29"
systemstat = "0.2"
serde = { version = "1", features = ["derive"] }
serde_json = "1"
chrono = "0.4"
plotters = "0.3"
wmi = "0.13"
win-toast-notify = "*"
