[package]
name = "concat_edit"
version = "0.1.0"
edition = "2021"
publish = false

[dependencies]
ffmpeg-the-third = "*"
libc = "0.2"
log = "0.4"
serde = { version = "1", features = ["derive"] }
serde_json = "1"
thiserror = "2"
