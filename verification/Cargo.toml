[package]
name = "audio_palette"
version = "0.1.0"
edition = "2021"
publish = false

[dependencies]
midly = "*"
rusqlite = { version = "*", features = ["bundled"] }
serde = { version = "*", features = ["derive"] }
serde_json = "*"
symphonia = "*"
rustfft = "*"
rayon = "*"
thiserror = "*"
