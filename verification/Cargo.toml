[package]
name = "lisensor"
version = "0.1.0"
edition = "2021"
publish = false

[dependencies]
chrono = "=0.4.45"
clap = { version = "=4.6.7", features = ["derive"] }
pistonite-cu = { version = "=0.5.5", features = ["cli", "coroutine-heavy", "fs", "toml"] }
