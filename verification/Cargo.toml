[package]
name = "nfl_data_pipeline"
version = "0.1.0"
edition = "2021"
publish = false

[dependencies]
csv = "1"
chrono = "0.4"
postgres = { version = "0.19", features = ["with-uuid-1"] }
postgres-native-tls = "0.5"
native-tls = "0.2"
uuid = { version = "1", features = ["v4"] }
reqwest = { version = "0.11", default-features = false, features = ["blocking"] }
dotenv = "0.15"
env_logger = "0.10"
log = "0.4"
indicatif = "0.17"
anyhow = "1"
