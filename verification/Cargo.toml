[package]
name = "ghostrpc"
version = "0.1.0"
edition = "2021"
publish = false

[dependencies]
aes-gcm = "0.10"
base64 = "0.22"
bytes = "1"
crossbeam-queue = "0.3"
futures = "0.3"
h2 = "0.4"
http = "1"
instant-acme = { version = "0.7", default-features = false, features = ["hyper-rustls", "ring"] }
lazy_static = "1"
libc = "0.2"
mimalloc = { version = "0.1", default-features = false }
rand = "0.8"
rand_distr = "0.4"
rcgen = "0.13"
reqwest = { version = "0.12", default-features = false, features = ["json", "rustls-tls"] }
rustls = { version = "0.23", default-features = false, features = ["ring", "std", "tls12", "logging"] }
rustls-pemfile = "2"
serde = { version = "1", features = ["derive"] }
serde_json = "1"
sha2 = "0.10"
socket2 = { version = "0.5", features = ["all"] }
tokio = { version = "1", features = ["full"] }
tokio-rustls = { version = "0.26", default-features = false, features = ["ring", "tls12", "logging"] }
tokio-util = "0.7"
toml = "0.8"
tracing = "0.1"
tracing-subscriber = { version = "0.3", features = ["env-filter"] }
webpki-roots = "0.26"
