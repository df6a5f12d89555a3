[package]
name = "taskclock"
version = "0.1.0"
edition = "2021"
publish = false

[dependencies]
chrono = "*"
cron = "*"
encoding_rs = "*"
uuid = { version = "*", features = ["v4"] }
sysinfo = "*"
