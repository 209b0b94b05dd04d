[package]
name = "niobium"
version = "0.1.0"
edition = "2021"
publish = false

[dependencies]
base64 = "0.22"
image = "0.24"
kamadak-exif = "0.5"
md-5 = "0.10"
natord = "1.0"
rand = "0.8"
serde = { version = "1", features = ["derive"] }
toml = "0.8"
webp = "0.2"
