[package]
name = "rustvault"
version = "0.1.0"
edition = "2021"
publish = false

[dependencies]
aes-gcm = "0.10"
sha2 = "0.10"
clap = { version = "4", features = ["derive"] }
dialoguer = "0.11"
dirs = "5"
arboard = { version = "3", default-features = false }
