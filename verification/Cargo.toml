[package]
name = "wc_envc"
version = "0.1.0"
edition = "2021"
publish = false

[dependencies]
magic-crypt = "=5.0.1"
base64 = "=0.23.1"
anyhow = "=1.0.104"
clap = { version = "=4.6.7", features = ["derive", "env"] }
console = "=0.16.6"
dialoguer = "=0.12.0"
secrecy = "=0.10.3"
