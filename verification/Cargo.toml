[package]
name = "watchnext"
version = "0.1.0"
edition = "2021"
publish = false

[dependencies]
matroska = "*"
plist = "1"
serde_json = "1"
