[package]
name = "bitrufus_core"
version = "0.1.0"
edition = "2021"
publish = false

[dependencies]
librqbit = "8.1.1"
url = "2"
tokio = { version = "1", features = ["full"] }
reqwest = "*"
anyhow = "1"
thiserror = "*"
tracing = "*"
tracing-subscriber = { version = "*", features = ["env-filter", "fmt"] }
directories = "*"
uniffi = { version = "*", features = ["tokio"] }
