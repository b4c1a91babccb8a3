[package]
name = "clickpath"
version = "0.1.0"
edition = "2021"
publish = false

[dependencies]
crossbeam-channel = "*"
enigo = "*"
win-hotkeys = "*"

[dev-dependencies]
serde_json = "*"
