[package]
name = "watchtower"
version = "0.1.0"
edition = "2021"
publish = false

[dependencies]
fuel-block-committer-encoding = "=0.10.10"
fuel-core-compression = "=0.48.3"
fuel-core-types = "=0.48.3"
postcard = { version = "=1.1.3", features = ["alloc"] }
hex = "=0.4.3"
sha2 = "=0.10.9"
serde = { version = "=1.0.229", features = ["derive"] }
url = "=2.5.8"
anyhow = "=1.0.104"
clap = { version = "=4.6.7", features = ["derive", "env"] }
tokio = { version = "=1.54.1", features = ["macros", "rt-multi-thread", "sync", "time"] }
tokio-stream = "=0.1.19"
futures = "=0.3.34"
futures-util = "=0.3.34"
tracing = "=0.1.44"
dotenvy = "=0.15.7"
humantime = "=2.4.0"
itertools = "=0.15.0"
async-trait = "=0.1.92"
reqwest = { version = "=0.12.28", default-features = false, features = ["json"] }
