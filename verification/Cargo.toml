[package]
name = "kanono"
version = "0.1.0"
edition = "2021"
publish = false

[dependencies]
anyhow = "1"
cpal = "0.15"
crossbeam-channel = "0.5"
crossbeam-queue = "0.3"
ebur128 = "0.1"
id3 = "1"
libloading = "0.8"
libopus_sys = "*"
rfd = { version = "0.14", default-features = false, features = ["xdg-portal", "tokio"] }
rusqlite = { version = "0.31", features = ["bundled"] }
symphonia = { version = "0.5", features = ["all"] }
tokio = { version = "1", features = ["rt", "rt-multi-thread"] }
walkdir = "2"
zbus = { version = "4", default-features = false, features = ["tokio"] }
