[package]
name = "docsy"
version = "0.1.0"
edition = "2021"
publish = false

[dependencies]
encoding_rs = "=0.8.44"
regex = "=1.13.1"
pulldown-cmark = { version = "=0.13.6", default-features = false }
sha2 = "=0.10.9"
lopdf = "=0.46.0"
tokio-util = "=0.7.20"
serde = { version = "=1.0.229", features = ["derive"] }
serde_json = "=1.0.154"
quick-xml = "=0.37.5"
docx-rs = { version = "=0.4.22", default-features = false }
zip = { version = "=9.2.2", default-features = false, features = ["deflate"] }
base64 = "=0.22.1"
image = { version = "*", default-features = false, features = ["png"] }
