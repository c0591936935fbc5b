[package]
name = "dmx_patch"
version = "0.1.0"
edition = "2021"
publish = false

[dependencies]
dashmap = { version = "5.5", features = ["serde"] }
once_cell = "1"
thiserror = "1"
serde = { version = "1", features = ["derive"] }
ron = "0.8"
log = "0.4"
tokio = { version = "1", features = ["rt-multi-thread", "fs", "io-util", "sync"] }
egui = "0.26"
egui_extras = { version = "0.26", default-features = false }
