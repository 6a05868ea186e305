[package]
name = "navitia-poi-model"
version = "0.5.0"
edition = "2021"
publish = false

[dependencies]
anyhow = "1"
csv = "1"
geo = "0.26"
serde = { version = "1", features = ["derive"] }
zip = { version = "0.6", default-features = false, features = ["deflate"] }
