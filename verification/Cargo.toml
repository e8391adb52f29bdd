[package]
name = "panorama-tiler"
version = "0.1.0"
edition = "2021"
publish = false

[dependencies]
fast_image_resize = "*"
image = "*"
rayon = "*"
serde = { version = "1", features = ["derive"] }
serde_json = "1"
thiserror = "*"
webp = "*"
xmpkit = "*"
kamadak-exif = "*"
