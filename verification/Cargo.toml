[package]
name = "thanatos"
version = "0.1.0"
edition = "2021"
publish = false

[dependencies]
flate2 = "1"
base64 = "0.21"
anyhow = "1"
chrono = "0.4"
lazy_static = "1"
crossbeam-channel = "0.5"
notify = "6"
egui = "0.27"
