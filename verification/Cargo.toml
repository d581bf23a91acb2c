[package]
name = "gmpublished_backend"
version = "0.1.0"
edition = "2021"
publish = false

[dependencies]
vformats = "=0.1.0"
thiserror = "=2.0.21"
log = "=0.4.35"
nucleo-matcher = "=0.3.1"
serde_json = "=1.0.154"
ureq = "=3.5.1"
serde = { version = "=1.0.229", features = ["derive"] }
