[package]
name = "live_wetter"
version = "0.1.0"
edition = "2021"
publish = false

[dependencies]
urlencoding = "2"
serde = { version = "1", features = ["derive"] }
anyhow = "1"
futures = "0.3"
gloo-timers = { version = "0.3", features = ["futures"] }
js-sys = "0.3"
reqwest = { version = "0.12", default-features = false, features = ["json"] }
dioxus = { version = "0.7", features = ["web"] }
