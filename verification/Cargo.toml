[package]
name = "onyx"
version = "0.1.0"
edition = "2021"
publish = false

[dependencies]
failure = "=0.1.8"
promptly = "=0.3.1"
quicli = "=0.4.0"
serde = "=1.0.229"
serde_derive = "=1.0.229"
serde_yaml = "=0.9.34"
structopt = "0.2"
void = "=1.0.2"
