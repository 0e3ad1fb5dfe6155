[package]
name = "melody_extraction"
version = "0.1.0"
edition = "2021"
publish = false

[dependencies]
minimp3 = "0.5"
aubio-rs = "*"
ghakuf = "0.5"
digital-filter = "*"
moving_avg = "*"
num = "*"
streaming-stats = "0.2"
median = "0.3"
clap = "2"
plotters = { version = "0.3", default-features = false, features = ["bitmap_backend", "bitmap_encoder", "line_series"] }
