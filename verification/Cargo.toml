[package]
name = "termkrush"
version = "0.1.0"
edition = "2021"
publish = false

[dependencies]
toml = "0.8"
symphonia = { version = "0.5", features = ["mp3"] }
rubato = "0.15"
