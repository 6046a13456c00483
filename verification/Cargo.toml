[package]
name = "lumasift"
version = "0.1.0"
edition = "2021"
publish = false

[dependencies]
sha2 = "=0.10.9"
uuid = { version = "=1.29.0", features = ["v4"] }
chrono = "=0.4.45"
serde = { version = "=1.0.229", features = ["derive"] }
serde_json = "=1.0.154"
walkdir = "=2.5.0"
tiny_http = "=0.12.0"
windows = { version = "0.58", features = ["Win32_NetworkManagement_WNet", "Win32_Foundation"] }
