[package]
name = "boundary_rings"
version = "0.1.0"
edition = "2021"
publish = false

[dependencies]
anyhow = "=1.0.104"
clap = { version = "=4.6.7", features = ["derive"] }
itertools = "=0.15.0"
log = "=0.4.34"
osmpbfreader = { version = "=0.19.1", features = ["serde"] }
regex = "=1.13.1"
serde_json = "=1.0.154"
simple_logger = "=5.2.0"
