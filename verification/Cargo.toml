[package]
name = "chat_stats"
version = "0.1.0"
edition = "2021"
publish = false

[dependencies]
chrono = { version = "0.4", default-features = false, features = ["std"] }
clap = { version = "4", features = ["derive"] }
tabled = { version = "*", default-features = false, features = ["std"] }

[dev-dependencies]
regex = "1"
