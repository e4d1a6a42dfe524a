[package]
name = "nettoolkit"
version = "0.1.0"
edition = "2021"
publish = false

[dependencies]
hex = "0.4"
thiserror = "1"
tokio = { version = "1", features = ["net", "io-util", "time", "rt-multi-thread", "macros", "process", "sync"] }
reqwest = { version = "0.12", default-features = false, features = ["rustls-tls"] }

[dev-dependencies]
serde_json = "1"
