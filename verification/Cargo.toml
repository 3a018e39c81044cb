[package]
name = "spotify_history"
version = "0.1.0"
edition = "2021"
publish = false

[dependencies]
chrono = { version = "0.4", features = ["serde"] }
csv = "1"
serde = { version = "1", features = ["derive"] }
serde_json = "1"
tokio = { version = "1", features = ["macros", "rt-multi-thread"] }
dotenvy = "0.15"
lofty = "*"
walkdir = "2"
rayon = "1"
google-youtube3 = "6"
hyper-rustls = "0.27"
hyper-util = { version = "0.1", features = ["client-legacy", "tokio"] }
rustls = "0.23"
yup-oauth2 = "11"
