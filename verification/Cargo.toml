[package]
name = "oxicache"
version = "0.1.0"
edition = "2021"
publish = false

[dependencies]
bytes = "=1.12.1"
clap = { version = "=4.6.7", features = ["derive", "env"] }
hyper = { version = "=1.12.0", features = ["http1", "server"] }
hyper-util = { version = "=0.1.21", features = ["tokio"] }
http-body-util = "=0.1.5"
libc = "=0.2.191"
parking_lot = "=0.12.5"
rapidhash = "=4.5.1"
rmp-serde = "=1.3.1"
rmpv = { version = "=1.3.1", features = ["with-serde"] }
rustls = { version = "=0.23.46", default-features = false, features = ["ring", "std", "tls12", "logging"] }
rustls-pki-types = { version = "=1.15.1", features = ["std"] }
serde = { version = "=1.0.229", features = ["derive"] }
socket2 = "=0.6.5"
thiserror = "=2.0.21"
tokio = { version = "=1.54.1", features = ["full"] }
tokio-rustls = { version = "=0.26.6", default-features = false, features = ["ring", "tls12", "logging"] }
tracing = "=0.1.44"
tracing-subscriber = { version = "=0.3.23", features = ["env-filter"] }
