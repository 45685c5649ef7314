[package]
name = "mqttui"
version = "0.1.0"
edition = "2021"
publish = false

[dependencies]
anyhow = "1"
clap = { version = "4", features = ["derive"] }
rand = "0.8"
rumqttc = { version = "0.24", features = ["websocket"] }
