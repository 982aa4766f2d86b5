[package]
name = "embedded_camera_calibration"
version = "0.1.0"
edition = "2021"
publish = false

[dependencies]
anyhow = "1"
chrono = "0.4"
clap = { version = "4", features = ["derive"] }
display-info = "*"
glob = "0.3"
itertools = "*"
opencv = "*"
plotters = "0.3"
rayon = "1"
resvg = "*"
serde = { version = "1", features = ["derive"] }
serde_json = "1"
tiny-skia = "*"
usvg = "*"
