[package]
name = "manga_reel"
version = "0.1.3"
edition = "2021"
publish = false

[dependencies]
sha2 = "0.10"
hex = "0.4"
directories = "5"
image = { version = "0.25", default-features = false, features = ["png", "jpeg", "webp", "gif", "bmp"] }
zip = { version = "2", default-features = false, features = ["deflate"] }
walkdir = "2"
serde = { version = "1", features = ["derive"] }
serde_json = "1"
anyhow = "1"
rayon = "1"
glib = "0.20"
gtk4 = "0.9"
libadwaita = "0.7"
