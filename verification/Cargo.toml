[package]
name = "emoji_picker"
version = "0.1.0"
edition = "2021"
publish = false

[dependencies]
egui = "=0.31.1"
egui_extras = { version = "=0.31.1", default-features = false }
emojis = "*"
twemoji-assets = { version = "*", default-features = false, features = ["png"] }
