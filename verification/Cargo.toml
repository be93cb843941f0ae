[package]
name = "telemutter"
version = "0.1.0"
edition = "2021"
publish = false

[dependencies]
crc-any = { version = "2", default-features = false }
