[package]
name = "elrond"
version = "0.39.0"
edition = "2021"
publish = false

[dependencies]
base64 = "0.22"
bcrypt = "0.16"
bytes = "1"
flate2 = "1"
h3 = "0.0.8"
h3-quinn = "0.0.10"
http-body-util = "0.1"
hyper = { version = "1", features = ["client", "http1", "http2", "server"] }
hyper-util = { version = "0.1", features = ["client", "client-legacy", "http1", "http2", "server", "server-graceful", "service", "tokio"] }
libc = "0.2"
quinn = { version = "0.11", default-features = false, features = ["runtime-tokio", "rustls-ring"] }
regex = "1"
rustls = { version = "0.23", default-features = false, features = ["logging", "ring", "std", "tls12"] }
rustls-pemfile = "2"
tokio = { version = "1", features = ["full"] }
tokio-rustls = { version = "0.26", default-features = false, features = ["logging", "ring", "tls12"] }
tracing = "0.1"
tracing-subscriber = { version = "0.3", features = ["env-filter", "json"] }
