[package]
name = "lilah_editor"
version = "0.1.0"
edition = "2021"
publish = false

[dependencies]
pathdiff = "*"
serde = { version = "1", features = ["derive"] }
serde_json = "1"
image = "*"
