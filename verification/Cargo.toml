[package]
name = "data_server"
version = "0.1.0"
edition = "2021"
publish = false

[dependencies]
rand = "0.8"
prost = "0.13"
tonic = "0.12"
tokio = { version = "1", features = ["macros", "rt-multi-thread"] }
clap = { version = "4", features = ["derive"] }
env_logger = "0.11"
log = "0.4"
