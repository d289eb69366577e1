[package]
name = "habforge"
version = "0.1.0"
edition = "2021"
publish = false

[dependencies]
config = { version = "0.13", default-features = false, features = ["toml"] }
reqwest = { version = "0.11", default-features = false }
serde = { version = "1", features = ["derive"] }
systemd = "0.10"
tinkerforge = "2"
tokio = { version = "1", features = ["macros", "rt-multi-thread", "time"] }
