[package]
name = "course_videos"
version = "0.1.0"
edition = "2021"
publish = false

[dependencies]
indicatif = "0.17"
mp4 = "0.14"
mp4-merge = "*"
rand = "0.8"
rayon = "1"
scraper = "*"
