[package]
name = "pv_cobra_redux"
version = "0.1.0"
edition = "2021"
publish = false

[dependencies]
anyhow = "1"
clap = { version = "4", features = ["derive"] }
cpal = "0.15"
indicatif = "0.17"
samplerate = "0.2"
