[package]
name = "keyring_cursed"
version = "0.1.0"
edition = "2021"
publish = false

[dependencies]
keyring = { version = "3", default-features = false }
thiserror = "1"
