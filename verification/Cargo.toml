[package]
name = "quic_inbound"
version = "0.1.0"
edition = "2021"
publish = false

[dependencies]
quinn = "0.10"
rustls = "0.21"
rustls-pemfile = "1"
futures = "0.3"
log = "0.4"
