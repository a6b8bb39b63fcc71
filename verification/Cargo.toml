[package]
name = "wwsim"
version = "0.1.0"
edition = "2021"
publish = false

[dependencies]
rand = "0.8"
counter = "0.6"
serde = { version = "1", features = ["derive"] }
serde_json = "1"
chrono = "0.4"
ureq = { version = "3", features = ["json"] }
indicatif = "0.17"
rayon = "1"
plotters = { version = "0.3", default-features = false, features = ["bitmap_backend", "bitmap_encoder", "ttf"] }
