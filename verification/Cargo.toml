[package]
name = "megatexture"
version = "0.1.0"
edition = "2021"
publish = false

[dependencies]
anyhow = "1"
png = "0.16"
zip = { version = "0.6", default-features = false, features = ["deflate"] }

[dev-dependencies]
serde_json = "1"
