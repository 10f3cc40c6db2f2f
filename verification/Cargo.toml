[package]
name = "discordfuse"
version = "0.1.0"
edition = "2021"
publish = false

[dependencies]
anyhow = "=1.0.104"
env_logger = "=0.9.3"
fuse = "=0.3.1"
libc = "=0.2.190"
log = "=0.4.34"
serenity = { version = "=0.10.10", default-features = false, features = ["http", "model", "rustls_backend"] }
time = "=0.1.45"
tokio = { version = "=1.53.2", features = ["rt-multi-thread"] }
