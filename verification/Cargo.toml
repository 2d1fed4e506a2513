[package]
name = "audio_gen"
version = "0.1.0"
edition = "2021"
publish = false

[dependencies]
anyhow = "1"
hound = "3"
nalgebra = "*"
rand = "0.9"
rayon = "1"
