[package]
name = "scrabble"
version = "0.1.0"
edition = "2021"
publish = false

[dependencies]
petgraph = "*"
rand = "0.8"
serde = { version = "1", features = ["derive"] }
bincode = "1"
termion = "*"
