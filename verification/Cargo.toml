[package]
name = "lotus"
version = "0.1.0"
edition = "2021"
publish = false

[dependencies]
axum = "0.8"
cbor2 = "*"
chrono = "0.4"
clap = { version = "4", features = ["derive", "env"] }
iroh = { version = "*", default-features = false }
maud = { version = "*", features = ["axum"] }
percent-encoding = "2"
rand = "*"
rusqlite = { version = "*", features = ["bundled"] }
serde = { version = "1", features = ["derive"] }
serde_json = "1"
thiserror = "2"
tokio = { version = "1", features = ["macros", "net", "rt-multi-thread", "signal"] }
tokio-util = { version = "0.7", features = ["codec"] }
tracing = "0.1"
tracing-subscriber = { version = "0.3", features = ["env-filter"] }
