[package]
name = "monitoro"
version = "0.1.0"
edition = "2021"
publish = false

[dependencies]
anyhow = "1"
async-trait = "0.1"
clap = { version = "4", features = ["derive"] }
csv = "1"
dns-lookup = "*"
ipnet = "2"
netdev = "*"
ratatui = "*"
serde = { version = "1", features = ["derive"] }
serde_json = "1"
thiserror = "2"
tokio = { version = "1", features = ["macros", "net", "rt-multi-thread", "sync", "time"] }
windows = { version = "*", features = ["Win32_NetworkManagement_IpHelper"] }
