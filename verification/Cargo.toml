[package]
name = "ssak"
version = "0.1.0"
edition = "2021"
publish = false

[dependencies]
dialoguer = "0.11"
plotters = { version = "0.3", default-features = false, features = ["bitmap_backend", "bitmap_encoder", "line_series", "point_series"] }
serde = { version = "1", features = ["derive"] }
serde_json = "1"
