[package]
name = "cosmogony"
version = "0.1.0"
edition = "2021"
publish = false

[dependencies]
anyhow = "=1.0.104"
clap = { version = "=4.5.61", features = ["derive"] }
env_logger = "=0.11.11"
flate2 = "=1.1.10"
geo = "=0.33.1"
geo-types = "=0.7.20"
log = "=0.4.34"
osm_boundaries_utils = "=0.12.0"
osmpbfreader = "=0.16.1"
rstar = "=0.13.0"
serde = { version = "=1.0.229", features = ["derive"] }
serde_json = "=1.0.151"
serde_yaml = "=0.9.34"
