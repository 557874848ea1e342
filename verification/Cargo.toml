[package]
name = "pptx_to_md"
version = "0.1.0"
edition = "2021"
publish = false

[dependencies]
base64 = "=0.22.1"
image = "=0.24.9"
rayon = "=1.12.0"
roxmltree = "=0.20.0"
thiserror = "=1.0.69"
zip = { version = "=0.6.6", default-features = false, features = ["deflate"] }
