[package]
name = "tcrank"
version = "0.1.0"
edition = "2021"
publish = false

[dependencies]
clap = "2"
env_logger = "0.6"
log = "0.4"
prettytable-rs = "0.8"
reqwest = "0.9"
serde = "1"
serde_derive = "1"
serde_json = "1"
