[package]
name = "clipx"
version = "0.1.0"
edition = "2021"
publish = false

[dependencies]
anyhow = "1"
arboard = "3"
bincode = "1"
png = "0.17"
serde = { version = "1", features = ["derive"] }
sha2 = "*"
tao = "*"
tray-icon = "*"
wry = "*"
