[package]
name = "dioxus-dnd-kit"
version = "0.1.0"
edition = "2021"
publish = false

[dependencies]
dioxus = "0.7"
dioxus-floating = "*"
gloo-timers = { version = "0.3", features = ["futures"] }
futures = "0.3"
