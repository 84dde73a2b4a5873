[package]
name = "cheats"
version = "0.1.0"
edition = "2021"
publish = false

[dependencies]
pulldown-cmark = "*"
flate2 = "*"
tar = "*"
termion = "*"
clap = "*"
dirs = "*"
reqwest = { version = "*", default-features = false, features = ["blocking"] }
