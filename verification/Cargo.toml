[package]
name = "tim"
version = "0.1.0"
edition = "2021"
publish = false

[dependencies]
async-trait = "0.1"
futures = "0.3"
tokio = { version = "1", features = ["macros", "rt-multi-thread"] }
twilight-cache-inmemory = "0.11"
twilight-gateway = "0.11"
twilight-http = "0.11"
twilight-interactions = "0.11"
twilight-model = "0.11"
twilight-util = { version = "0.11", features = ["builder"] }
