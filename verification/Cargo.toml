[package]
name = "skele"
version = "0.1.0"
edition = "2021"
publish = false

[dependencies]
hmac-sha256 = "1"
argon2 = "0.5"
aes-gcm = "0.10"
rand_core = { version = "0.6", features = ["getrandom"] }
base64ct = "1.6"
anyhow = "1"
crossterm = "0.25"
requestty = "0.5"
directories-next = "2"
wl-clipboard-rs = "0.8"
