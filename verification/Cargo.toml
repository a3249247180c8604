[package]
name = "markov_chain"
version = "0.1.0"
edition = "2021"
publish = false

[dependencies]
rand = "0.8"
sqlite = "0.26"
serenity = "0.11"
tokio = { version = "1", features = ["macros", "rt-multi-thread"] }
