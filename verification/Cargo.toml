[package]
name = "sudoku_rs"
version = "0.1.0"
edition = "2021"
publish = false

[dependencies]
arrayvec = "0.7"
itertools = "0.10"
