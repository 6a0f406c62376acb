[package]
name = "koe_core"
version = "0.1.0"
edition = "2021"
publish = false

[dependencies]
aho-corasick = "*"
discord-md = "*"
redis = "*"
chrono = "*"
anyhow = "*"
log = "*"
