[package]
name = "ssh2socks"
version = "0.1.0"
edition = "2021"
publish = false

[dependencies]
base64 = "=0.22.1"
sha2 = "=0.10.9"
uuid = { version = "=1.29.0", features = ["v4"] }
ssh-key = { version = "=0.6.7", features = ["ed25519", "rsa", "encryption", "getrandom", "std"] }
rsa = { version = "=0.9.10", features = ["sha2"] }
ed25519-dalek = "=2.2.0"
curve25519-dalek = "=4.1.3"
serde = { version = "=1.0.229", features = ["derive"] }
serde_json = "=1.0.154"
dirs = "=5.0.1"
chrono = "=0.4.45"
tokio = { version = "=1.54.1", features = ["full"] }
libc = "=0.2.191"
codepage = "=0.1.3"
encoding_rs = "=0.8.44"
