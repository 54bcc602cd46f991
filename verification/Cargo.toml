[package]
name = "steg_codec"
version = "0.1.0"
edition = "2021"
publish = false

[dependencies]
anyhow = "1"
clap = { version = "4", features = ["derive"] }
llama-cpp-2 = "*"
memchr = "2"
ordered-float = "*"
rand = "0.8"
