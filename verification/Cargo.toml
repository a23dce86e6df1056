[package]
name = "crypt_dew_world"
version = "4.3.0"
edition = "2021"
publish = false

[dependencies]
anyhow = "1"
clap = { version = "4", features = ["derive"] }
colored = "*"
crossterm = "*"
futures = "0.3"
hex = "0.4"
indicatif = "*"
inquire = "*"
regex = "1"
rust-i18n = "3"
self-replace = "1"
semver = "1"
serde_json = "1"
shen-nbt5 = "*"
sys-locale = "0.3"
tar = "0.4"
tempfile = "3"
tokio = { version = "1", features = ["full"] }
ureq = "3"
walkdir = "2"
zip = { version = "2", default-features = false, features = ["deflate"] }
