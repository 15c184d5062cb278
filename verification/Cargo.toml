[package]
name = "iana"
version = "0.1.0"
edition = "2021"
publish = false

[dependencies]
smoltcp = "=0.11.0"
log = "=0.4.34"
env_logger = "=0.5.13"
clap = "=2.34.0"
futures = "=0.1.31"
tokio-core = "=0.1.18"
hyper = "=0.12.36"
hyper-tls = "=0.3.2"
flate2 = "=1.1.10"
