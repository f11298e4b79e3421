[package]
name = "adlt"
version = "0.1.0"
edition = "2021"
publish = false

[dependencies]
evmap = "10"
bincode = { version = "2", features = ["derive"] }
chrono = "0.4"
clap = "2.33"
slog = "2"
