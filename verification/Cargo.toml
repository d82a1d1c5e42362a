[package]
name = "simple_pdf_viewer"
version = "0.1.0"
edition = "2021"
publish = false

[dependencies]
blake3 = "1"
cairo-rs = "*"
crossbeam-channel = "0.5"
eframe = { version = "*", default-features = false, features = ["default_fonts", "glow", "wayland", "x11"] }
glib = "*"
poppler-rs = "*"
rfd = "*"
serde = { version = "1", features = ["derive"] }
serde_json = "1"
thiserror = "2"
