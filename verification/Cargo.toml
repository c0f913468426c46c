[package]
name = "cybele_vault"
version = "0.1.0"
edition = "2021"
publish = false

[dependencies]
chacha20poly1305 = "0.10"
pbkdf2 = "0.12"
sha2 = "0.10"
rand = "0.8"
zeroize = "1"
rpassword = "7"
rprompt = "2"
