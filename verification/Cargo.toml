[package]
name = "libakaza"
version = "0.1.0"
edition = "2021"
publish = false

[dependencies]
anyhow = "1"
crawdad = "0.4"
env_logger = "0.10"
log = "0.4"
