[package]
name = "session_link"
version = "0.1.0"
edition = "2021"
publish = false

[dependencies]
async-broadcast = "0.7"
eframe = "0.19"
egui = "0.19"
egui_extras = "0.19"
futures = "0.3"
itertools = "0.10"
smol = "2"
tracing = "0.1"
tracing-subscriber = "0.3"

[dev-dependencies]
serde_json = "1"
