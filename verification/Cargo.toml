[package]
name = "hevc_grain"
version = "0.1.0"
edition = "2021"
publish = false

[dependencies]
anyhow = "=1.0.104"
arrayvec = "=0.7.8"
av1-grain = "=0.4.2"
ffmpeg-the-third = "=5.0.0"
log = "=0.4.35"
num-rational = "=0.4.2"
rayon = "=1.12.0"
