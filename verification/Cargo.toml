[package]
name = "sam_cam_bam"
version = "0.1.0"
edition = "2021"
publish = false

[dependencies]
anyhow = "1"
cpal = "0.15"
crossbeam-channel = "0.5"
egui = "0.29"
env_logger = "0.11"
fnv = "1"
image = { version = "0.25", default-features = false }
imageproc = { version = "0.25", default-features = false }
log = "0.4"
nokhwa = { version = "0.10", features = ["input-native"] }
rand = "0.9"
rustfft = "6"
