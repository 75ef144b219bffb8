[package]
name = "knapp"
version = "0.1.2"
edition = "2021"
publish = false

[dependencies]
pulldown-cmark = { version = "0.13", default-features = false }
unicode-normalization = "0.1"
unicode-width = "0.2"
sha2 = "0.10"
serde = { version = "1", features = ["derive"] }
serde_json = "1"
toml = "0.8"
notify = "8"
tiny-skia = "0.11"
ratatui = "0.29"
