[package]
name = "survex_dist"
version = "0.1.0"
edition = "2021"
publish = false

[dependencies]
clap = { version = "=4.6.7", features = ["derive"] }
env_logger = "=0.11.11"
log = "=0.4.34"
ordered-float = "=5.5.0"
petgraph = "=0.6.5"
prettytable-rs = "=0.10.0"
serde = { version = "=1.0.229", features = ["derive"] }
serde_json = "=1.0.154"
survex-rs = "=0.1.7"
