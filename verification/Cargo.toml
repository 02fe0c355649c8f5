[package]
name = "matchy"
version = "0.1.0"
edition = "2021"
publish = false

[dependencies]
rand = "0.8"
rand_chacha = "0.3"
petgraph = "0.6"
anyhow = "1"
itertools = "0.13"
chrono = "0.4"
regex = "1"
tokio = { version = "1", features = ["macros", "rt-multi-thread"] }
serenity = "0.12"
poise = "0.6"
