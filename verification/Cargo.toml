[package]
name = "zenoh-hammer"
version = "0.1.0"
edition = "2021"
publish = false

[dependencies]
zenoh = { version = "=1.9.0", default-features = false, features = ["transport_tcp"] }
flate2 = "=1.1.10"
serde = { version = "=1.0.229", features = ["derive"] }
serde_json = "=1.0.154"
toml = "=0.9.12"
json5 = "=1.3.7"
flume = "=0.11.1"
tokio = { version = "=1.54.1", features = ["rt-multi-thread", "time", "macros"] }
log = "=0.4.35"
egui = "=0.36.2"
egui_extras = "=0.36.2"
egui_dnd = "0.17"
egui_json_tree = "=0.17.0"
rfd = { version = "=0.17.2", default-features = false, features = ["xdg-portal"] }
