[package]
name = "ginkou"
version = "0.1.0"
edition = "2021"
publish = false

[dependencies]
dirs = "*"
mecab = "*"
rusqlite = { version = "*", features = ["bundled"] }
structopt = "*"
