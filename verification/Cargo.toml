[package]
name = "deckery"
version = "0.1.0"
edition = "2021"
publish = false

[dependencies]
evdev = { version = "0.12", features = ["tokio", "serde"] }
fork = "*"
libc = "0.2"
notify = "*"
serde = { version = "1", features = ["derive"] }
serde_json = "1"
swayipc-async = "2"
tokio = { version = "1", features = ["full"] }
tokio-stream = "0.1"
toml = "0.8"
x11rb = "0.13"
zbus = "5"
