[package]
name = "egui_data_table"
version = "0.1.0"
edition = "2021"
publish = false

[dependencies]
egui = { version = "=0.30.0", default-features = false, features = ["persistence"] }
egui_extras = { version = "=0.30.0", default-features = false }
itertools = "=0.14.0"
serde = { version = "=1.0.229", features = ["derive"] }
tap = "=1.0.1"
