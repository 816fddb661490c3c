[package]
name = "wordle_solver"
version = "0.1.0"
edition = "2021"
publish = false

[dependencies]
rayon = "1"
rand = "0.8"
random-string = "1"
clap = { version = "3", features = ["derive"] }
