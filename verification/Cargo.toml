[package]
name = "scomp"
version = "0.2.0"
edition = "2021"
publish = false

[dependencies]
clap = "3"
log = "0.4"
log4rs = "1"
mysql = "*"
serde = { version = "1", features = ["derive"] }
serde_json = "1"
