[package]
name = "larch"
version = "0.1.0"
edition = "2021"
publish = false

[dependencies]
bytes = "*"
clap = { version = "*", features = ["derive"] }
futures = "*"
num = "*"
terminus-store = "*"
tokio = { version = "*", features = ["fs", "io-util", "io-std", "macros", "rt-multi-thread"] }
