[package]
name = "xtp_rs"
version = "0.1.0"
edition = "2021"
publish = false

[dependencies]
aes = "*"
aes-gcm = "*"
anyhow = "1"
arc-swap = "1"
clap = { version = "4", features = ["derive"] }
dashmap = "6"
fastrand = "2"
geosite-rs = "*"
hkdf = "*"
ipnet = "2"
iptrie = "*"
libc = "0.2"
maxminddb = "*"
nix = { version = "*", features = ["socket", "net", "uio"] }
portable-atomic = "1"
prost = "*"
serde = { version = "1", features = ["derive"] }
serde_json = "1"
sha2 = "*"
socket2 = { version = "*", features = ["all"] }
tokio = { version = "1", features = ["full"] }
tokio-splice = "*"
tokio-util = "*"
toml = "*"
tracing = "0.1"
tracing-subscriber = { version = "0.3", features = ["env-filter"] }
