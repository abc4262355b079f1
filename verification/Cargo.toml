[package]
name = "domaingrep"
version = "0.2.1"
edition = "2021"
publish = false

[dependencies]
sha2 = "0.10"
flate2 = "1"
rand = "0.8"
csv = "1"
serde = { version = "1", features = ["derive"] }
serde_json = "1"
semver = "1"
clap = { version = "4", features = ["derive"] }
tokio = { version = "1", features = ["rt-multi-thread", "macros", "time", "sync"] }
reqwest = { version = "0.12", default-features = false, features = ["json", "rustls-tls", "http2"] }
dirs = "5"
memmap2 = "0.9"
is-terminal = "0.4"
mio = { version = "1", features = ["os-poll", "net"] }
socket2 = "0.5"
futures = "0.3"
