[package]
name = "plog"
version = "0.0.2"
edition = "2021"
publish = false

[dependencies]
clap = { version = "4", features = ["derive"] }
eframe = { version = "0.28", default-features = false, features = ["default_fonts", "glow"] }
indexmap = "2"
regex = "1"
rfd = { version = "0.14", default-features = false, features = ["xdg-portal", "async-std"] }
serde_yaml = "0.9"
thiserror = "1"
