[package]
name = "quark"
version = "1.0.0"
edition = "2021"
publish = false

[dependencies]
arc-swap = "1"
argh = "0.1"
bincode = { version = "2", features = ["derive"] }
futures = "0.3"
http-body-util = "0.1"
hyper = { version = "1", features = ["full"] }
hyper-util = { version = "0.1", features = ["full"] }
mime_guess = "2"
nix = { version = "*", features = ["user"] }
notify = "*"
pin-project-lite = "0.2"
rustls = "0.23"
rustls-pemfile = "2"
rustls-pki-types = "1"
serde = { version = "1", features = ["derive"] }
socket2 = "0.5"
time = { version = "0.3", features = ["formatting"] }
tokio = { version = "1", features = ["full"] }
tokio-rustls = "0.26"
tokio-util = { version = "0.7", features = ["io"] }
toml = "*"
tracing = "0.1"
tracing-appender = "0.2"
tracing-subscriber = { version = "0.3", features = ["env-filter"] }
twox-hash = "2"
x509-parser = "*"

[dev-dependencies]
rcgen = "*"
