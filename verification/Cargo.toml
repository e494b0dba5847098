[package]
name = "find_my_fav"
version = "0.1.0"
edition = "2021"
publish = false

[dependencies]
chrono = "0.4"
dirs = "5"
glob = "0.3"
image = { version = "0.25", default-features = false, features = ["png", "jpeg"] }
rand = "0.8"
rayon = "1"
rusqlite = { version = "0.31", features = ["bundled"] }
