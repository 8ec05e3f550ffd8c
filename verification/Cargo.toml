[package]
name = "midi_comb"
version = "0.1.0"
edition = "2021"
publish = false

[dependencies]
midly = "*"
eframe = { version = "*", default-features = false, features = ["glow", "x11"] }
rfd = { version = "*", default-features = false, features = ["gtk3"] }
