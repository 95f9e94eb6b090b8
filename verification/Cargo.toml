[package]
name = "chat_relay"
version = "0.1.0"
edition = "2021"
publish = false

[dependencies]
ahash = "0.8"
chrono = "0.4"
clap = { version = "4", features = ["derive"] }
colored = "2"
dotenvy = "0.15"
futures-util = "0.3"
irc = "0.15"
rand = "0.8"
regex = "1"
serenity = { version = "0.11", default-features = false, features = ["builder", "cache", "chrono", "client", "framework", "gateway", "model", "http", "standard_framework", "utils", "native_tls_backend"] }
sqlx = { version = "0.6", features = ["runtime-tokio-native-tls", "sqlite"] }
thiserror = "1"
tokio = { version = "1", features = ["full"] }
tracing = "0.1"
