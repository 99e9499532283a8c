[package]
name = "rsedit"
version = "0.2.0"
edition = "2021"
publish = false

[dependencies]
image = { version = "0.25", default-features = false, features = ["png", "jpeg", "webp", "tiff", "bmp", "gif"] }
flate2 = "1"
tar = { version = "0.4", default-features = false }
zip = { version = "2", default-features = false, features = ["deflate"] }
anyhow = "1"
serde = { version = "1", features = ["derive"] }
serde_json = "1"
once_cell = "1"
ab_glyph = "0.2"
fontdb = "0.23"
eframe = { version = "0.31", default-features = false, features = ["glow", "x11"] }
rfd = { version = "0.15", default-features = false, features = ["xdg-portal", "tokio"] }
ureq = { version = "3", default-features = false, features = ["rustls"] }
winreg = "0.55"
