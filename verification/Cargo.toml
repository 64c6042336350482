[package]
name = "scan_code_sync"
version = "0.1.0"
edition = "2021"
publish = false

[dependencies]
anyhow = "*"
chrono = "*"
filenamify = "*"
semver = "*"
sha2 = "*"
rqrr = "*"
image = { version = "*", default-features = false }
serde = { version = "*", features = ["derive"] }
serde_json = "*"
exiftool = "*"
ffmpeg-sidecar = "*"
atomic-progress = "*"
directories = "*"
fastrand = "*"
rayon = "*"
egui-macroquad = "*"
macroquad = "*"
rfd = { version = "*", default-features = false, features = ["gtk3"] }
reqwest = { version = "0.12", default-features = false, features = ["blocking", "json", "rustls-tls"] }
self_update = { version = "*", default-features = false, features = ["archive-tar", "compression-flate2"] }
tempfile = "*"
