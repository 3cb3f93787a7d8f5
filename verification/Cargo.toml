[package]
name = "telemetry_client"
version = "0.1.0"
edition = "2021"
publish = false

[dependencies]
anyhow = "1"
chrono = { version = "0.4", default-features = false, features = ["alloc", "now", "std"] }
crc32fast = "1"
crossbeam-channel = "0.5"
egui = { version = "0.29", default-features = false, features = ["default_fonts"] }
egui_extras = { version = "0.29", default-features = false }
egui_plot = { version = "0.29", default-features = false }
rfd = { version = "0.15", default-features = false, features = ["xdg-portal", "tokio"] }
rusqlite = { version = "0.31", features = ["bundled"] }
serde = { version = "1", features = ["derive"] }
serde_json = "1"
serde_yaml = "0.9"
serialport = { version = "4", default-features = false }
toml = "0.8"
