[package]
name = "cpu_usage_pipeline"
version = "0.1.0"
edition = "2021"
publish = false

[dependencies]
anyhow = "*"
futures = "*"
reqwest = { version = "*", default-features = false, features = ["json", "rustls-tls"] }
serde = "*"
serde_derive = "*"
time = { version = "*", features = ["parsing"] }
tokio = { version = "*", features = ["macros", "rt-multi-thread", "sync"] }
