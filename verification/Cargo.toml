[package]
name = "audio_samples"
version = "0.1.0"
edition = "2021"
publish = false

[dependencies]
anyhow = "1"
float-ord = "0.3"
hound = "3"
rand = "0.8"
rand_pcg = "0.3"
rustfft = "6"
serde = { version = "1", features = ["derive"] }
serde_json = "1"
