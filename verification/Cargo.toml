[package]
name = "earthstream_geo"
version = "0.1.0"
edition = "2021"
publish = false

[dependencies]
geohash = "0.13"
sha2 = "0.10"
digest = "0.10"
candid = "0.10"
ic-cdk = "0.17"
ic-cdk-macros = "0.17"
serde = { version = "1", features = ["derive"] }
