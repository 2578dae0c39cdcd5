[package]
name = "rhis"
version = "0.1.0"
edition = "2021"
publish = false

[dependencies]
unicode-segmentation = "1"
rusqlite = { version = "*", features = ["bundled", "functions"] }
clap = { version = "4", features = ["derive"] }
crossterm = "*"
directories-next = "2"
chrono = "0.4"
humantime = "2"
is_executable = "1"
libc = "0.2"
relative-path = "1"
shellexpand = "3"
which = "*"
