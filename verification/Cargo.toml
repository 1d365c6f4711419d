[package]
name = "tsp_coursework"
version = "0.1.0"
edition = "2021"
publish = false

[dependencies]
rand = "0.8"
clap = { version = "4", features = ["derive"] }
color-eyre = "0.6"
indicatif = "0.17"
chrono = "0.4"
plotters = { version = "0.3", default-features = false, features = ["bitmap_backend", "bitmap_encoder", "line_series"] }
serde = { version = "1", features = ["derive"] }
serde-xml-rs = "0.6"
