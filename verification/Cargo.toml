[package]
name = "rogue_mapgen"
version = "0.1.0"
edition = "2021"
publish = false

[dependencies]
rltk = "=0.8.7"
specs = { version = "=0.16.1", features = ["serde"] }
serde = { version = "=1.0.229", features = ["derive"] }
serde_json = "=1.0.154"
