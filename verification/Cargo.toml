[package]
name = "sound_dir"
version = "0.1.0"
edition = "2021"

[dependencies]
anyhow = "1"
egui = { version = "0.27", default-features = false }
global-hotkey = "0.6"
realfft = "3"
serde = { version = "1", features = ["derive"] }
serde_json = "1"
