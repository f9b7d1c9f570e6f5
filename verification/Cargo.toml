[package]
name = "lilypondx"
version = "0.1.0"
edition = "2021"
publish = false

[dependencies]
pulldown-cmark = { version = "0.13", default-features = false }
midly = "0.5"
serde = { version = "1", features = ["derive"] }
serde_yaml = "0.9"
thiserror = "2"
clap = { version = "4", features = ["derive"] }
ratatui = "*"
crossterm = "*"
notify = "*"
tempfile = "3"
ureq = "2"
cpal = "*"
rustysynth = "*"
