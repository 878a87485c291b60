[package]
name = "baken"
version = "0.1.0"
edition = "2021"
publish = false

[dependencies]
unicode-normalization = "0.1"
quick-xml = "0.37"
serde = { version = "1", features = ["derive"] }
serde_json = "1"
thiserror = "2"
anyhow = "1"
symphonia = { version = "0.5", default-features = false, features = ["mp3", "flac", "wav", "aiff", "pcm", "isomp4", "alac", "aac"] }
mp3rgain = "*"
rayon = "1"
chrono = { version = "0.4", default-features = false, features = ["clock"] }
csv = "1"
clap = { version = "4", features = ["derive"] }
console = "0.15"
dialoguer = "0.11"
indicatif = "0.17"
