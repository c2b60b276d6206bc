[package]
name = "fatx"
version = "0.1.0"
edition = "2021"
publish = false

[dependencies]
bimap = "0.6"
chrono = "0.4"
clap = { version = "4", features = ["derive"] }
env_logger = "0.11"
fuser = { version = "0.15", default-features = false }
libc = "0.2"
log = "0.4"
thiserror = "2"
zerocopy = "0.8"
