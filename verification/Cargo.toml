[package]
name = "https_profile"
version = "0.1.0"
edition = "2021"
publish = false

[dependencies]
regex = "1"
openssl = "0.10"
getopts = "0.2"
log = "0.4"
env_logger = "0.11"
