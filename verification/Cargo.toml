[package]
name = "cert_days"
version = "0.1.0"
edition = "2021"
publish = false

[dependencies]
chrono = "0.4"
log = "0.4"
stderrlog = "*"
structopt = "0.3"
tempfile = "3"
tokio = { version = "1", features = ["rt-multi-thread", "macros"] }
