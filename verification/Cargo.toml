[package]
name = "seekrs"
version = "0.2.0"
edition = "2021"
publish = false

[dependencies]
chrono = "0.4"
clap = { version = "4", features = ["derive"] }
colored = "2"
fuzzy-matcher = "0.3"
md5 = "0.7"
open = "5"
regex = "1"
walkdir = "2"
