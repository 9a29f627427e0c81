[package]
name = "peeroxide-dht"
version = "0.1.0"
edition = "2021"
publish = false

[dependencies]
blake2 = "=0.10.6"
ed25519-dalek = "=2.2.0"
curve25519-dalek = "=4.1.3"
sha2 = "=0.10.9"
chacha20 = "=0.9.1"
poly1305 = "=0.8.0"
chacha20poly1305 = "=0.10.1"
xsalsa20poly1305 = "=0.9.1"
rand = "=0.9.5"
thiserror = "=2.0.21"
tokio = { version = "1", features = ["io-util", "rt", "sync", "net", "time"] }
