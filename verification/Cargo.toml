[package]
name = "metronome"
version = "0.1.0"
edition = "2021"
publish = false

[dependencies]
anyhow = "1"
cpal = "0.15"
egui = { version = "0.27", default-features = false }
