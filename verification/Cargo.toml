[package]
name = "tailscale"
version = "0.1.0"
edition = "2021"
publish = false

[dependencies]
chacha20poly1305 = "=0.10.1"
noise-protocol = "=0.2.1"
noise-rust-crypto = "=0.6.2"
smoltcp = "=0.12.0"
flume = "=0.11.1"
hyper = { version = "=1.12.0", features = ["client", "http1"] }
thiserror = "=2.0.21"
gethostname = "*"
