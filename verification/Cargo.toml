[package]
name = "temporal_scheduler"
version = "0.1.0"
edition = "2021"
publish = false

[dependencies]
jiff = "0.2"
farmhash = "1"
moka = { version = "0.12", features = ["sync"] }
thiserror = "2"
