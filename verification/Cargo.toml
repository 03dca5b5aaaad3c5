[package]
name = "datavalue"
version = "0.1.0"
edition = "2021"
publish = false

[dependencies]
bumpalo = { version = "3", features = ["collections"] }
fast-float2 = "*"
itoa = "1"
ryu = "1"
chrono = "0.4"
serde = "1"
serde_json = "1"
