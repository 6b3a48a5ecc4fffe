[package]
name = "mtsender"
version = "0.1.0"
edition = "2021"
publish = false

[dependencies]
aes = "0.8"
base64 = "0.22"
bytes = "1"
futures-util = "0.3"
getrandom = "0.2"
grammers-crypto = "0.7"
grammers-mtproto = "0.7"
grammers-tl-types = { version = "0.7", features = ["tl-mtproto"] }
log = "0.4"
sha2 = "0.10"
tokio = { version = "1", features = ["net", "io-util", "sync", "time", "rt"] }
tokio-socks = "0.5"
trust-dns-resolver = "0.23"
url = "2"
