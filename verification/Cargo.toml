[package]
name = "turing"
version = "0.1.0"
edition = "2021"
publish = false

[dependencies]
bimap = "0.6"
unicode-segmentation = "1"
termion = "*"
clap = { version = "4", features = ["derive"] }
