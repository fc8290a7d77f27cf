[package]
name = "tun2proxy"
version = "0.7.0"
edition = "2021"
publish = false

[dependencies]
async-trait = "0.1"
base64easy = "=0.1.7"
clap = { version = "4", features = ["derive"] }
digest_auth = "=0.3.1"
hickory-proto = "=0.25.2"
httparse = "=1.10.1"
ipstack = "=1.0.1"
log = "0.4"
socks5-impl = { version = "0.8", features = ["tokio"] }
tokio = { version = "1", features = ["full"] }
tokio-util = "0.7"
tproxy-config = { version = "=7.0.9", default-features = false }
tun = { version = "=0.8.14", features = ["async"] }
unicase = "=2.10.0"
wildmatch = "=2.7.0"
