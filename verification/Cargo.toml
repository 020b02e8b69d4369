[package]
name = "wikidata_filter"
version = "0.1.0"
edition = "2021"
publish = false

[dependencies]
serde_json = "=1.0.151"
clap = "=2.34.0"
env_logger = "=0.11.11"
log = "=0.4.34"
flate2 = "=1.1.10"
futures = { version = "=0.3.34", features = ["thread-pool"] }
metered = "=0.9.0"
