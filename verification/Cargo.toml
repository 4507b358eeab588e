[package]
name = "starling"
version = "0.1.0"
edition = "2021"
publish = false

[dependencies]
iroh = "*"
sha2 = "0.10"
postcard = { version = "1", features = ["use-std"] }
serde = { version = "1", features = ["derive"] }
chacha20poly1305 = "0.10"
crypto_box = { version = "0.9", features = ["chacha20"] }
hkdf = "0.12"
argon2 = "0.5"
rand = "0.8"
data-encoding = "2"
uuid = { version = "1", features = ["v4"] }
zeroize = { version = "1", features = ["derive"] }
anyhow = "1"
tokio = { version = "1", features = ["io-util", "time", "rt", "macros", "sync"] }
flate2 = "1"
chrono = { version = "0.4", default-features = false, features = ["clock"] }
libc = "0.2"
