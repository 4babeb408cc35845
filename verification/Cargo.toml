[package]
name = "fpv-viewer"
version = "0.1.0"
edition = "2021"
publish = false

[dependencies]
anyhow = "*"
clap = { version = "*", features = ["derive"] }
image = "*"
minifb = "*"
num-complex = "*"
orecchiette-fpv-drone-analog-rs = "*"
sdr-aaronia-rs = { version = "*", default-features = false }
serde_json = "*"
tracing = "*"
tracing-subscriber = { version = "*", features = ["env-filter"] }
