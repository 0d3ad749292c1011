[package]
name = "f10n"
version = "0.1.0"
edition = "2021"
publish = false

[dependencies]
anyhow = "1"
clap = "2"
google-translate3 = "1"
hashlink = "*"
hyper = "0.10"
hyper-rustls = "0.6"
serde_json = { version = "1", features = ["preserve_order"] }
sled = "*"
yup-oauth2 = "1"
