[package]
name = "peakypanes_bridge"
version = "0.1.0"
edition = "2021"
publish = false

[dependencies]
zellij-tile = "*"

[dev-dependencies]
serde_json = "*"
