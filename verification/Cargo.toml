[package]
name = "sealant_capture"
version = "0.1.0"
edition = "2021"
publish = false

[dependencies]
fastcdc = "4"
futures = "0.3"
hex = "0.4"
nix = { version = "0.29", features = ["resource", "fs", "user"] }
notify = "8"
rustls = { version = "0.23", default-features = false, features = ["ring", "std", "tls12", "logging"] }
rustls-pemfile = "2"
rustls-pki-types = "1"
serde = { version = "1", features = ["derive"] }
serde_json = "1"
sha2 = "0.10"
thiserror = "2"
tokio = { version = "1", features = ["rt", "rt-multi-thread", "net", "io-util", "io-std", "sync", "time", "macros", "fs"] }
tokio-rustls = { version = "0.26", default-features = false, features = ["ring", "tls12", "logging"] }
tokio-tungstenite = "0.26"
tokio-util = { version = "0.7", features = ["io", "io-util"] }
tracing = "0.1"
ureq = { version = "3", default-features = false, features = ["rustls", "json"] }
walkdir = "2"
zstd = "0.13"
