[package]
name = "video_player"
version = "0.1.0"
edition = "2021"
publish = false

[dependencies]
ffmpeg-next = "4"
sdl2 = "*"
flutter-engine = "*"
log = "0.4"
