[package]
name = "podchamp"
version = "0.1.0"
edition = "2021"
publish = false

[dependencies]
anyhow = "*"
bytes = "*"
chrono = "*"
clap = { version = "*", features = ["derive", "env"] }
directories = "*"
feed-rs = "*"
futures = "*"
reqwest = { version = "*", default-features = false }
tokio = { version = "*", features = ["rt", "macros", "process"] }
url = "*"
