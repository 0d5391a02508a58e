[package]
name = "marker"
version = "1.0.3"
edition = "2021"
publish = false

[dependencies]
serde = { version = "1", features = ["derive"] }
serde_json = "1"
time = { version = "0.3", features = ["formatting", "local-offset", "macros"] }
tracing = "0.1"
global-hotkey = "*"
ctrlc = "3"
