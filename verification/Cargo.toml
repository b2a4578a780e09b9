[package]
name = "pool_sync"
version = "0.1.0"
edition = "2021"
publish = false

[dependencies]
alloy = { version = "1.0", default-features = false, features = ["std", "provider-http", "reqwest", "rpc-types", "network"] }
anyhow = "1"
dotenv = "0.15"
futures = "0.3"
log = "0.4"
rand = "0.8"
serde = { version = "1", features = ["derive"] }
serde_json = "1"
tokio = { version = "1", features = ["rt-multi-thread", "macros", "sync", "time"] }
