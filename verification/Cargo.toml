[package]
name = "yubico_otp"
version = "0.1.0"
edition = "2021"
publish = false

[dependencies]
base64 = "0.22"
hmac = "0.12"
sha1 = "0.10"
rand = "0.8"
url = "2"
reqwest = { version = "0.12", default-features = false }
tokio = { version = "1", default-features = false, features = ["macros", "rt"] }
dotenvy = "0.15"
