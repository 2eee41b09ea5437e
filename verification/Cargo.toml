[package]
name = "localfeed"
version = "0.1.0"
edition = "2021"
publish = false

[dependencies]
feed-rs = "2"
url = "2"
readability = { version = "0.3", default-features = false }
sha2 = "0.10"
base64 = "0.22"
reqwest = { version = "0.12", default-features = false, features = ["blocking", "rustls-tls"] }
rusqlite = { version = "0.32", features = ["bundled"] }
tantivy = "0.22"
serde = { version = "1", features = ["derive"] }
serde_json = "1"
