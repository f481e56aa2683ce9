[package]
name = "dns_lattice"
version = "0.1.0"
edition = "2021"
publish = false

[dependencies]
base64 = "0.22"
async-trait = "0.1"
tokio = { version = "1", features = ["net", "time", "io-util", "rt", "rt-multi-thread", "macros", "sync"] }
rustls = { version = "0.23", default-features = false, features = ["ring", "std", "tls12"] }
tokio-rustls = { version = "0.26", default-features = false, features = ["ring", "tls12"] }
rustls-pki-types = "1"
webpki-roots = "0.26"
quinn = { version = "0.11", default-features = false, features = ["runtime-tokio", "rustls-ring"] }
hyper = { version = "1", features = ["client", "http1"] }
hyper-util = { version = "0.1", features = ["client-legacy", "tokio", "http1"] }
hyper-rustls = { version = "0.27", default-features = false, features = ["http1", "ring", "tls12"] }
http = "1"
http-body-util = "0.1"
