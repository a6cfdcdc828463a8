[package]
name = "tap"
version = "0.1.0"
edition = "2021"
publish = false

[dependencies]
anyhow = "1"
chrono = { version = "0.4", features = ["serde"] }
dbus = "0.9"
log = "0.4"
serde = { version = "1", features = ["derive"] }
serde_json = "1"
strum_macros = "0.26"
