[package]
name = "dioxus-flow"
version = "0.1.0"
edition = "2021"
publish = false

[dependencies]
dioxus = { version = "0.7", default-features = false, features = ["macro", "html", "signals", "hooks", "document"] }
serde = { version = "1", features = ["derive"] }
web-time = "1"
futures-timer = "3"
gloo-timers = { version = "0.3", features = ["futures"] }
