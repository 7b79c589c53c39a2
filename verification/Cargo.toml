[package]
name = "graph-lib"
version = "0.1.0"
edition = "2021"
publish = false

[dependencies]
egui-snarl = "=0.12.0"
egui = "=0.36.2"
bytemuck = "=1.25.2"
serde = { version = "=1.0.229", features = ["derive"] }
serde_json = "=1.0.154"
anyhow = "=1.0.104"
