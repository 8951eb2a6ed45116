[package]
name = "imagen_duplicada"
version = "0.1.0"
edition = "2021"
publish = false

[dependencies]
sha2 = "=0.10.9"
image = { version = "0.25", default-features = false, features = ["jpeg", "png", "webp", "gif", "tiff", "bmp"] }
kamadak-exif = "=0.5.5"
chrono = "0.4"
memmap2 = "0.9"
walkdir = "2"
rayon = "1"
serde = { version = "1", features = ["derive"] }
once_cell = "1"
trash = "5"
