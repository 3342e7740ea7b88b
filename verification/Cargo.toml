[package]
name = "vaultguard"
version = "0.1.0"
edition = "2021"
publish = false

[dependencies]
chrono = "0.4"
dirs = "5"
dirs-next = "2"
notify = "6"
