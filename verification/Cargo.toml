[package]
name = "m3u8_parse_sort"
version = "0.1.0"
edition = "2021"
publish = false

[dependencies]
anyhow = "*"
clap = { version = "*", features = ["derive"] }
reqwest = { version = "*", default-features = false }
tokio = { version = "*", features = ["macros", "rt-multi-thread", "fs", "io-util"] }
tracing = "*"
tracing-subscriber = { version = "*", features = ["env-filter"] }
