[package]
name = "netconf-rs"
version = "0.2.0"
edition = "2021"
publish = false

[dependencies]
memmem = "=0.1.1"
quick-xml = { version = "=0.42.0", features = ["serialize"] }
serde = { version = "=1.0.229", features = ["derive"] }
log = "=0.4.34"
ssh2 = "=0.9.6"
tokio = { version = "=1.54.1", features = ["rt", "rt-multi-thread"] }
russh = "*"
