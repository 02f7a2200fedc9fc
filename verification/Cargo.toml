[package]
name = "rest_client"
version = "0.1.0"
edition = "2021"
publish = false

[dependencies]
serde = { version = "1", features = ["derive"] }
serde_json = "1"
tokio = { version = "1", features = ["macros", "rt-multi-thread", "io-std", "sync"] }
tower-lsp = "0.20"
reqwest = { version = "0.12", default-features = false, features = ["multipart", "rustls-tls"] }
zed_extension_api = "0.7.0"
