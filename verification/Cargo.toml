[package]
name = "qurb"
version = "0.1.0"
edition = "2021"
publish = false

[dependencies]
anyhow = "=1.0.104"
blake3 = "=1.8.7"
chacha20poly1305 = "=0.10.1"
fastcdc = "=3.2.1"
futures-util = "=0.3.34"
gtk = "=0.18.2"
jsonwebtoken = "=9.3.1"
libc = "=0.2.191"
memmap2 = "=0.9.12"
notify = "=6.1.1"
quinn = "=0.11.12"
rand = "=0.8.8"
rcgen = "=0.13.2"
reqwest = { version = "=0.12.28", default-features = false, features = ["json", "rustls-tls"] }
rusqlite = { version = "=0.32.1", features = ["bundled"] }
rustls = { version = "=0.23.46", default-features = false, features = ["ring", "std", "tls12"] }
rustls-pemfile = "=2.2.0"
serde = { version = "=1.0.229", features = ["derive"] }
serde_json = "=1.0.154"
sha2 = "=0.10.9"
thiserror = "=1.0.69"
tokio = { version = "=1.54.1", features = ["fs", "io-util", "macros", "net", "rt-multi-thread", "sync", "time"] }
tokio-rustls = { version = "=0.26.6", default-features = false, features = ["ring", "tls12"] }
tokio-tungstenite = { version = "=0.26.2", features = ["rustls-tls-webpki-roots"] }
tracing = "=0.1.44"
tracing-subscriber = { version = "=0.3.23", features = ["env-filter"] }
tray-icon = "=0.19.3"
walkdir = "=2.5.0"
zbus = "=5.19.0"
zstd = "=0.13.4"
