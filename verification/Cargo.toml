[package]
name = "schlosser"
version = "0.1.0"
edition = "2021"
publish = false

[dependencies]
aes-gcm = "0.10"
pbkdf2 = "0.12"
sha2 = "0.10"
bytes = "1"
memsecurity = "*"
thiserror = "1"
zeroize = "1"
