[package]
name = "tendie_factory"
version = "0.1.0"
edition = "2021"
publish = false

[dependencies]
csv = "=1.4.0"
twoway = "=0.2.2"
serde = { version = "=1.0.229", features = ["derive"] }
serde_json = "=1.0.154"
reqwest = { version = "=0.11.27", default-features = false, features = ["rustls-tls"] }
tokio = { version = "=1.54.1", features = ["macros", "rt-multi-thread"] }
rayon = "=1.12.0"
rust-bert = { version = "=0.23.0", default-features = false, features = ["remote", "rustls-tls"] }
once_cell = "=1.21.4"
