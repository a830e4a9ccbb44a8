[package]
name = "textream"
version = "0.1.0"
edition = "2021"
publish = false

[dependencies]
rand = "0.8"
roxmltree = "0.20"
zip = { version = "2", default-features = false, features = ["deflate"] }
serde = { version = "1", features = ["derive"] }
serde_json = "1"
tiny_http = "0.12"
tungstenite = "0.26"
reqwest = { version = "0.12", default-features = false, features = ["blocking", "json", "rustls-tls"] }
