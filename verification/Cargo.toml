[package]
name = "logsift"
version = "0.1.0"
edition = "2021"

[dependencies]
serde_json = "=1.0.154"
memmap = "=0.7.0"
structopt = "=0.3.26"

[dev-dependencies]
regex = "1"
