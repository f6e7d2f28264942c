[package]
name = "embi_search"
version = "0.1.0"
edition = "2021"
publish = false

[dependencies]
pdf-extract = "0.10"
uuid = { version = "1", features = ["v4"] }
serde = { version = "1", features = ["derive"] }
serde_json = "1"
reqwest = { version = "0.12", default-features = false, features = ["json", "blocking"] }
tokio = { version = "1", features = ["rt-multi-thread", "macros", "sync", "time"] }
futures = "0.3"
ignore = "0.4"
notify = "8"
open = "5"
