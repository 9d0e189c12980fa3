[package]
name = "rust_data_server"
version = "0.1.0"
edition = "2021"
publish = false

[dependencies]
secded = "=1.1.0"
bytemuck = "=1.25.2"
serde = { version = "=1.0.229", features = ["derive"] }
serde_json = "=1.0.154"
rand = "=0.8.8"
num = "=0.4.3"
websocket = { version = "=0.27.1", default-features = false, features = ["sync"] }
rocket = { version = "0.5", features = ["json"] }
rocket_cors = "0.6"
