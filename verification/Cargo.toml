[package]
name = "cantometria"
version = "0.1.0"
edition = "2021"
publish = false

[dependencies]
crossterm = "=0.29.0"
hound = "=3.5.1"
midi_file = "=0.2.0"
pitch-detection = "=0.3.0"
plotters = { version = "=0.3.7", default-features = false, features = ["bitmap_backend", "bitmap_encoder"] }
plotters-bitmap = "=0.3.7"
ratatui = "=0.30.2"
thiserror = "=2.0.21"
tui-big-text = "=0.8.10"
walkdir = "=2.5.0"

[dev-dependencies]
rustfft = "=6.4.1"
